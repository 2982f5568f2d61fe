use recoll_next::windows::status::ServiceStatus;

#[test]
fn parse_running() {
    assert_eq!(ServiceStatus::parse("running"), ServiceStatus::Running);
}

#[test]
fn parse_stopped() {
    assert_eq!(ServiceStatus::parse("stopped"), ServiceStatus::Stopped);
}

#[test]
fn parse_unknown_string() {
    assert_eq!(ServiceStatus::parse("xyz"), ServiceStatus::Unknown);
}

#[test]
fn parse_ignores_case() {
    assert_eq!(ServiceStatus::parse("PAUSED"), ServiceStatus::Paused);
    assert_eq!(ServiceStatus::parse("Running"), ServiceStatus::Running);
    assert_eq!(ServiceStatus::parse(""), ServiceStatus::Unknown);
    assert_eq!(ServiceStatus::parse(" running"), ServiceStatus::Unknown);
}
