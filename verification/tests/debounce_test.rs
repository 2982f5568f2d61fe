use recoll_next::watcher::debounce::Debouncer;
use recoll_next::watcher::OperationType;
use std::time::{Duration, Instant};

fn wait(d: Duration) {
    let start = Instant::now();
    while start.elapsed() < d {}
}

#[test]
fn first_event_is_recorded_as_pending() {
    let mut d = Debouncer::new(Duration::from_millis(200));
    d.record("a.txt".to_string(), OperationType::Update);
    assert_eq!(d.pending_count(), 1);
}

#[test]
fn rapid_writes_within_window_are_collapsed() {
    let mut d = Debouncer::new(Duration::from_millis(200));
    d.record("a.txt".to_string(), OperationType::Update);
    d.record("a.txt".to_string(), OperationType::Update);
    d.record("a.txt".to_string(), OperationType::Update);
    assert_eq!(d.pending_count(), 1);
}

#[test]
fn drain_ready_returns_expired_events() {
    let mut d = Debouncer::new(Duration::from_millis(10));
    d.record("a.txt".to_string(), OperationType::Update);
    wait(Duration::from_millis(30));
    let events = d.drain_ready();
    assert_eq!(events.len(), 1);
    assert_eq!(events[0].path, "a.txt");
    assert_eq!(d.pending_count(), 0);
}

#[test]
fn different_files_are_independent() {
    let mut d = Debouncer::new(Duration::from_millis(200));
    d.record("a.txt".to_string(), OperationType::Update);
    d.record("b.txt".to_string(), OperationType::Create);
    assert_eq!(d.pending_count(), 2);
}

#[test]
fn delete_event_overrides_pending_and_is_immediate() {
    let mut d = Debouncer::new(Duration::from_millis(5000));
    d.record("a.txt".to_string(), OperationType::Update);
    d.record("a.txt".to_string(), OperationType::Delete);
    let events = d.drain_ready();
    assert_eq!(events.len(), 1);
    assert_eq!(events[0].operation, OperationType::Delete);
}

#[test]
fn events_within_window_stay_pending() {
    let mut d = Debouncer::new(Duration::from_secs(60));
    d.record("a.txt".to_string(), OperationType::Update);
    assert!(d.drain_ready().is_empty());
    assert_eq!(d.pending_count(), 1);
}

#[test]
fn drain_expired_takes_immediate_and_expired_in_order() {
    let mut d = Debouncer::new(Duration::from_secs(60));
    d.record("a".to_string(), OperationType::Update);
    d.record("b".to_string(), OperationType::Delete);
    d.record("c".to_string(), OperationType::Create);
    d.record("a".to_string(), OperationType::Create);
    let events = d.drain_expired(&[false, false, true]);
    let got: Vec<(String, OperationType)> = events.into_iter().map(|e| (e.path, e.operation)).collect();
    assert_eq!(
        got,
        vec![("b".to_string(), OperationType::Delete), ("c".to_string(), OperationType::Create)]
    );
    assert_eq!(d.pending_count(), 1);
    let rest = d.drain_expired(&[true]);
    assert_eq!(rest[0].path, "a");
    assert_eq!(rest[0].operation, OperationType::Create);
}

#[test]
fn custom_immediate_ops_replace_delete() {
    let mut d = Debouncer::new(Duration::from_secs(60)).with_immediate_ops(&[OperationType::Create]);
    d.record("a".to_string(), OperationType::Delete);
    d.record("b".to_string(), OperationType::Create);
    let events = d.drain_expired(&[false, false]);
    assert_eq!(events.len(), 1);
    assert_eq!(events[0].path, "b");
}

#[test]
fn repeated_events_keep_the_first_time() {
    let mut d = Debouncer::new(Duration::from_millis(10));
    d.record_at("a.txt".to_string(), OperationType::Update, 0);
    d.record_at("a.txt".to_string(), OperationType::Create, 5_000_000);
    assert!(d.drain_at(9_999_999).is_empty());
    assert_eq!(d.pending_count(), 1);
    let events = d.drain_at(10_000_000);
    assert_eq!(events.len(), 1);
    assert_eq!(events[0].path, "a.txt");
    assert_eq!(events[0].operation, OperationType::Create);
    assert_eq!(d.pending_count(), 0);
}

#[test]
fn drain_at_keeps_paths_within_their_window() {
    let mut d = Debouncer::new(Duration::from_millis(10));
    d.record_at("a".to_string(), OperationType::Update, 0);
    d.record_at("b".to_string(), OperationType::Update, 8_000_000);
    let events = d.drain_at(12_000_000);
    assert_eq!(events.len(), 1);
    assert_eq!(events[0].path, "a");
    assert_eq!(d.pending_count(), 1);
    let rest = d.drain_at(18_000_000);
    assert_eq!(rest.len(), 1);
    assert_eq!(rest[0].path, "b");
    assert_eq!(d.pending_count(), 0);
}

#[test]
fn spellings_of_one_path_are_collapsed() {
    let mut d = Debouncer::new(Duration::from_secs(60));
    d.record("dir/a.txt".to_string(), OperationType::Update);
    d.record("dir//a.txt".to_string(), OperationType::Update);
    d.record("dir/./a.txt".to_string(), OperationType::Create);
    assert_eq!(d.pending_count(), 1);
    let events = d.drain_expired(&[true]);
    assert_eq!(events.len(), 1);
    assert_eq!(events[0].path, "dir/a.txt");
    assert_eq!(events[0].operation, OperationType::Create);
}

#[test]
fn immediate_mark_stays_with_later_operations() {
    let mut d = Debouncer::new(Duration::from_secs(60));
    d.record_at("a".to_string(), OperationType::Delete, 0);
    d.record_at("a".to_string(), OperationType::Update, 1);
    d.record_at("b".to_string(), OperationType::Update, 2);
    assert_eq!(d.pending_count(), 2);
    let events = d.drain_at(3);
    assert_eq!(events.len(), 1);
    assert_eq!(events[0].path, "a");
    assert_eq!(events[0].operation, OperationType::Update);
    assert_eq!(d.pending_count(), 1);
}
