use recoll_next::watcher::event_mapper::{map_event, EventKind, ModifyKind, RenameMode};
use recoll_next::watcher::OperationType;

#[test]
fn create_event_maps_to_create() {
    let kind = EventKind::Create;
    let paths = vec!["new.txt".to_string()];
    let events = map_event(&kind, &paths);
    assert_eq!(events.len(), 1);
    assert_eq!(events[0].operation, OperationType::Create);
    assert_eq!(events[0].path, "new.txt");
}

#[test]
fn modify_event_maps_to_update() {
    let kind = EventKind::Modify(ModifyKind::Data);
    let paths = vec!["exist.txt".to_string()];
    let events = map_event(&kind, &paths);
    assert_eq!(events.len(), 1);
    assert_eq!(events[0].operation, OperationType::Update);
}

#[test]
fn remove_event_maps_to_delete() {
    let kind = EventKind::Remove;
    let paths = vec!["old.txt".to_string()];
    let events = map_event(&kind, &paths);
    assert_eq!(events.len(), 1);
    assert_eq!(events[0].operation, OperationType::Delete);
}

#[test]
fn rename_produces_delete_and_create() {
    let kind = EventKind::Modify(ModifyKind::Name(RenameMode::Both));
    let paths = vec!["old.txt".to_string(), "new.txt".to_string()];
    let events = map_event(&kind, &paths);
    assert_eq!(events.len(), 2);
    assert_eq!(events[0].operation, OperationType::Delete);
    assert_eq!(events[0].path, "old.txt");
    assert_eq!(events[1].operation, OperationType::Create);
    assert_eq!(events[1].path, "new.txt");
}

#[test]
fn unknown_event_returns_empty() {
    let kind = EventKind::Other;
    let paths = vec!["x.txt".to_string()];
    let events = map_event(&kind, &paths);
    assert!(events.is_empty());
}

#[test]
fn rename_halves_and_short_rename() {
    let from = map_event(&EventKind::Modify(ModifyKind::Name(RenameMode::From)), &["a".to_string(), "b".to_string()]);
    assert!(from.iter().all(|e| e.operation == OperationType::Delete) && from.len() == 2);
    let to = map_event(&EventKind::Modify(ModifyKind::Name(RenameMode::To)), &["a".to_string()]);
    assert_eq!(to[0].operation, OperationType::Create);
    let short = map_event(&EventKind::Modify(ModifyKind::Name(RenameMode::Both)), &["a".to_string()]);
    assert_eq!(short.len(), 1);
    assert_eq!(short[0].operation, OperationType::Update);
    assert!(map_event(&EventKind::Access, &["a".to_string()]).is_empty());
}
