use recoll_next::sdk::handle::{RecollNext, SdkConfig};

#[test]
fn sdk_config_default_has_reasonable_values() {
    let cfg = SdkConfig::default();
    assert_eq!(cfg.bind_address, "127.0.0.1");
    assert_eq!(cfg.port, 9312);
    assert!(!cfg.data_dir.is_empty());
}

#[test]
fn open_returns_handle() {
    let cfg = SdkConfig::default();
    let handle = RecollNext::open(cfg).unwrap();
    assert!(handle.is_open());
}

#[test]
fn close_sets_not_open() {
    let cfg = SdkConfig::default();
    let mut handle = RecollNext::open(cfg).unwrap();
    handle.close();
    assert!(!handle.is_open());
}

#[test]
fn handle_keeps_its_config_after_close() {
    let cfg = SdkConfig {
        bind_address: "0.0.0.0".to_string(),
        port: 8080,
        data_dir: "/var/lib/rn".to_string(),
    };
    let mut handle = RecollNext::open(cfg.clone()).unwrap();
    assert_eq!(*handle.config(), cfg);
    handle.close();
    assert_eq!(*handle.config(), cfg);
    assert_eq!(SdkConfig::default().data_dir, ".recoll-next");
}
