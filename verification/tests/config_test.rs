use recoll_next::windows::config::ServiceConfig;

#[test]
fn default_service_name_is_recoll_next() {
    let cfg = ServiceConfig::default();
    assert_eq!(cfg.name, "RecollNext");
}

#[test]
fn default_binary_name_is_rn_cli_exe() {
    let cfg = ServiceConfig::default();
    assert_eq!(cfg.binary_name, "rn-cli.exe");
}

#[test]
fn display_name_contains_recoll() {
    let cfg = ServiceConfig::default();
    assert!(cfg.display_name.contains("Recoll"));
}

#[test]
fn default_description_is_set() {
    let cfg = ServiceConfig::default();
    assert_eq!(cfg.display_name, "Recoll Next Indexing Service");
    assert_eq!(cfg.description, "Recoll Next desktop full-text search indexing service");
}
