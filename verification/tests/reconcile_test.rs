use recoll_next::path_set::PathSet;
use recoll_next::watcher::reconcile::{reconcile, FileSnapshot, SnapshotMap};
use std::time::{SystemTime, UNIX_EPOCH};

fn now() -> i128 {
    SystemTime::now().duration_since(UNIX_EPOCH).unwrap().as_nanos() as i128
}

fn snap(mtime: i128, size: u64) -> FileSnapshot {
    FileSnapshot { mtime, size }
}

fn set_of(paths: &[&str]) -> PathSet {
    let mut s = PathSet::new();
    for p in paths {
        s.insert(p.to_string());
    }
    s
}

#[test]
fn new_file_on_disk_detected_as_added() {
    let t = now();
    let mut disk = SnapshotMap::new();
    disk.insert("a.txt".to_string(), snap(t, 100));
    disk.insert("b.txt".to_string(), snap(t, 200));

    let mut known = SnapshotMap::new();
    known.insert("a.txt".to_string(), snap(t, 100));

    let result = reconcile(&disk, &known);
    assert_eq!(result.added, set_of(&["b.txt"]));
    assert!(result.removed.is_empty());
}

#[test]
fn missing_file_detected_as_removed() {
    let t = now();
    let mut disk = SnapshotMap::new();
    disk.insert("a.txt".to_string(), snap(t, 100));

    let mut known = SnapshotMap::new();
    known.insert("a.txt".to_string(), snap(t, 100));
    known.insert("c.txt".to_string(), snap(t, 300));

    let result = reconcile(&disk, &known);
    assert!(result.added.is_empty());
    assert_eq!(result.removed, set_of(&["c.txt"]));
}

#[test]
fn unchanged_file_not_in_any_diff() {
    let t = now();
    let mut disk = SnapshotMap::new();
    disk.insert("a.txt".to_string(), snap(t, 100));

    let mut known = SnapshotMap::new();
    known.insert("a.txt".to_string(), snap(t, 100));

    let result = reconcile(&disk, &known);
    assert!(result.added.is_empty());
    assert!(result.removed.is_empty());
    assert!(result.modified.is_empty());
}

#[test]
fn modified_file_detected_by_mtime() {
    let t = now();
    let later = t + 60 * 1_000_000_000;

    let mut disk = SnapshotMap::new();
    disk.insert("a.txt".to_string(), snap(later, 150));

    let mut known = SnapshotMap::new();
    known.insert("a.txt".to_string(), snap(t, 100));

    let result = reconcile(&disk, &known);
    assert!(result.added.is_empty());
    assert!(result.removed.is_empty());
    assert_eq!(result.modified, set_of(&["a.txt"]));
}

#[test]
fn reconcile_with_itself_is_empty() {
    let mut state = SnapshotMap::new();
    state.insert("x".to_string(), snap(1, 1));
    state.insert("y".to_string(), snap(2, 2));
    let result = reconcile(&state, &state);
    assert!(result.added.is_empty() && result.removed.is_empty() && result.modified.is_empty());
}

#[test]
fn result_sets_iterate_in_order() {
    let mut disk = SnapshotMap::new();
    for p in ["zeta", "alpha", "mid", "alpha2"] {
        disk.insert(p.to_string(), snap(0, 0));
    }
    let known = SnapshotMap::new();
    let result = reconcile(&disk, &known);
    assert_eq!(
        result.added.to_vec(),
        vec!["alpha".to_string(), "alpha2".to_string(), "mid".to_string(), "zeta".to_string()]
    );
}

#[test]
fn snapshot_map_read_gives_back_write() {
    let mut m = SnapshotMap::new();
    assert_eq!(m.insert("a".to_string(), snap(1, 10)), None);
    assert_eq!(m.insert("a".to_string(), snap(2, 20)), Some(snap(1, 10)));
    assert_eq!(m.get("a"), Some(snap(2, 20)));
    assert_eq!(m.get("b"), None);
    assert!(m.contains_key("a"));
    assert_eq!(m.len(), 1);
}

#[test]
fn path_set_insert_reports_new_paths() {
    let mut s = PathSet::new();
    assert!(s.insert("b".to_string()));
    assert!(s.insert("a".to_string()));
    assert!(!s.insert("b".to_string()));
    assert_eq!(s.len(), 2);
    assert!(s.contains("a"));
    assert!(!s.contains("c"));
    assert_eq!(s.to_vec(), vec!["a".to_string(), "b".to_string()]);
}

#[test]
fn spellings_of_one_path_are_one_key() {
    let mut m = SnapshotMap::new();
    assert_eq!(m.insert("dir/a".to_string(), snap(1, 1)), None);
    assert_eq!(m.insert("dir//a/".to_string(), snap(2, 2)), Some(snap(1, 1)));
    assert_eq!(m.len(), 1);
    assert_eq!(m.get("dir/./a"), Some(snap(2, 2)));
    assert_eq!(m.get("./dir/a"), None);
    assert!(!m.contains_key("/dir/a"));
}

#[test]
fn reconcile_matches_paths_by_components() {
    let mut disk = SnapshotMap::new();
    disk.insert("dir/a".to_string(), snap(1, 1));
    disk.insert("dir/b".to_string(), snap(1, 1));
    let mut known = SnapshotMap::new();
    known.insert("dir//a".to_string(), snap(1, 1));
    known.insert("dir/b/".to_string(), snap(2, 2));
    known.insert("dir/c".to_string(), snap(1, 1));
    let result = reconcile(&disk, &known);
    assert!(result.added.is_empty());
    assert_eq!(result.modified, set_of(&["dir/b"]));
    assert_eq!(result.removed, set_of(&["dir/c"]));
}

#[test]
fn path_set_compares_and_orders_by_components() {
    let mut s = PathSet::new();
    assert!(s.insert("a-b".to_string()));
    assert!(s.insert("a/b".to_string()));
    assert!(!s.insert("a//b/".to_string()));
    assert!(s.contains("a/./b"));
    assert!(!s.contains("a"));
    assert_eq!(s.to_vec(), vec!["a/b".to_string(), "a-b".to_string()]);
    let mut t = PathSet::new();
    assert!(t.insert("../a".to_string()));
    assert!(t.insert("./a".to_string()));
    assert!(t.insert("/a".to_string()));
    assert_eq!(t.to_vec(), vec!["/a".to_string(), "./a".to_string(), "../a".to_string()]);
}
