use eomi_core::captive_portal::{ScannedNetwork, WifiCredential};
use eomi_core::provision::{find_saved_ssid_in_scan, merge_credentials};

fn cred(ssid: &str, password: &str) -> WifiCredential {
    WifiCredential { ssid: ssid.to_string(), password: password.to_string() }
}

fn net(ssid: &str) -> ScannedNetwork {
    ScannedNetwork { ssid: ssid.to_string(), rssi: -50, auth: "WPA2".to_string() }
}

#[test]
fn merge_appends_new_ssids() {
    let mut creds = vec![("Home".to_string(), "pw1".to_string())];
    let start = merge_credentials(&mut creds, &[cred("Office", "pw2"), cred("Cafe", "")]);
    assert_eq!(start, 1);
    assert_eq!(
        creds,
        vec![
            ("Home".to_string(), "pw1".to_string()),
            ("Office".to_string(), "pw2".to_string()),
            ("Cafe".to_string(), "".to_string()),
        ]
    );
}

#[test]
fn merge_updates_known_ssid_password() {
    let mut creds = vec![("Home".to_string(), "old".to_string())];
    let start = merge_credentials(&mut creds, &[cred("Home", "new")]);
    assert_eq!(start, 1);
    assert_eq!(creds, vec![("Home".to_string(), "new".to_string())]);
}

#[test]
fn merge_keeps_password_when_form_password_empty() {
    let mut creds = vec![("Home".to_string(), "old".to_string())];
    merge_credentials(&mut creds, &[cred("Home", "")]);
    assert_eq!(creds, vec![("Home".to_string(), "old".to_string())]);
}

#[test]
fn merge_duplicate_in_form_updates_first_entry() {
    let mut creds = Vec::new();
    let start = merge_credentials(&mut creds, &[cred("A", "1"), cred("A", "2"), cred("A", "")]);
    assert_eq!(start, 0);
    assert_eq!(creds, vec![("A".to_string(), "2".to_string())]);
}

#[test]
fn find_saved_ssid_first_saved_order() {
    let creds = vec![
        ("Home".to_string(), "a".to_string()),
        ("Office".to_string(), "b".to_string()),
        ("Cafe".to_string(), "c".to_string()),
    ];
    let scan = vec![net("Cafe"), net("Office")];
    assert_eq!(find_saved_ssid_in_scan(&scan, &creds), Some(1));
}

#[test]
fn find_saved_ssid_none_seen() {
    let creds = vec![("Home".to_string(), "a".to_string())];
    assert_eq!(find_saved_ssid_in_scan(&[net("Other")], &creds), None);
    assert_eq!(find_saved_ssid_in_scan(&[], &creds), None);
    assert_eq!(find_saved_ssid_in_scan(&[net("Home")], &[]), None);
}

#[test]
fn form_hostname_replaces_old() {
    let mut h = "old-host".to_string();
    eomi_core::provision::apply_hostname(&mut h, &Some("new-host".to_string()));
    assert_eq!(h, "new-host");
    eomi_core::provision::apply_hostname(&mut h, &None);
    assert_eq!(h, "new-host");
}
