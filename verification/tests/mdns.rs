use eomi_core::mdns::{
    MdnsConfig, MdnsResponder, DEFAULT_ODF_PATH, DEFAULT_PORT, SERVICE_PROTO, SERVICE_TYPE,
};

#[test]
fn config_defaults() {
    let cfg = MdnsConfig::new("eomi");
    assert_eq!(cfg.hostname, "eomi");
    assert_eq!(cfg.port, DEFAULT_PORT);
    assert_eq!(cfg.odf_path, DEFAULT_ODF_PATH);
}

#[test]
fn config_custom_hostname() {
    let cfg = MdnsConfig::new("living-room");
    assert_eq!(cfg.hostname, "living-room");
}

#[test]
fn stub_start_and_stop() {
    let cfg = MdnsConfig::new("test-device");
    let responder = MdnsResponder::start(cfg).unwrap();
    assert_eq!(responder.hostname(), "test-device");
    assert_eq!(responder.port(), DEFAULT_PORT);
    assert_eq!(responder.odf_path(), DEFAULT_ODF_PATH);
    assert!(responder.is_running());
    responder.stop();
}

#[test]
fn stub_update_ip() {
    let cfg = MdnsConfig::new("test-device");
    let mut responder = MdnsResponder::start(cfg).unwrap();
    assert_eq!(responder.ip_update_count(), 0);
    responder.update_ip().unwrap();
    assert_eq!(responder.ip_update_count(), 1);
    responder.update_ip().unwrap();
    assert_eq!(responder.ip_update_count(), 2);
}

#[test]
fn stub_drop_marks_stopped() {
    let cfg = MdnsConfig::new("test-device");
    let responder = MdnsResponder::start(cfg).unwrap();
    // Verify running before drop
    assert!(responder.is_running());
    drop(responder);
    // This test just verifies drop doesn't panic.
}

#[test]
fn constants_are_correct() {
    assert_eq!(SERVICE_TYPE, "_omi");
    assert_eq!(SERVICE_PROTO, "_tcp");
    assert_eq!(DEFAULT_PORT, 80);
    assert_eq!(DEFAULT_ODF_PATH, "/Objects");
}

#[test]
fn config_clone() {
    let cfg = MdnsConfig::new("cloned");
    let cfg2 = cfg.clone();
    assert_eq!(cfg.hostname, cfg2.hostname);
    assert_eq!(cfg.port, cfg2.port);
    assert_eq!(cfg.odf_path, cfg2.odf_path);
}

