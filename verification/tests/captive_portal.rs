use eomi_core::captive_portal::{
    is_omi_api_path, parse_provision_form, redirect_to_form, render_provisioning_form,
    should_redirect_to_portal, url_decode, ApiKeyAction, FormError,
};

#[test]
fn omi_path_exact() {
    assert!(is_omi_api_path("/omi"));
}

#[test]
fn omi_path_with_subpath() {
    assert!(is_omi_api_path("/omi/Device/Temp"));
}

#[test]
fn omi_path_ws() {
    assert!(is_omi_api_path("/omi/ws"));
}

#[test]
fn omi_path_root_slash() {
    assert!(is_omi_api_path("/omi/"));
}

#[test]
fn non_omi_path() {
    assert!(!is_omi_api_path("/"));
    assert!(!is_omi_api_path("/provision"));
    assert!(!is_omi_api_path("/scan"));
    assert!(!is_omi_api_path("/status"));
    assert!(!is_omi_api_path("/dashboard"));
}

#[test]
fn false_prefix_not_omi() {
    assert!(!is_omi_api_path("/omission"));
    assert!(!is_omi_api_path("/omitted"));
}

#[test]
fn redirect_regular_get() {
    assert!(should_redirect_to_portal("GET", "/generate_204"));
    assert!(should_redirect_to_portal("GET", "/hotspot-detect.html"));
    assert!(should_redirect_to_portal("GET", "/favicon.ico"));
    assert!(should_redirect_to_portal("GET", "/random/page"));
}

#[test]
fn no_redirect_portal_paths() {
    assert!(!should_redirect_to_portal("GET", "/"));
    assert!(!should_redirect_to_portal("GET", "/provision"));
    assert!(!should_redirect_to_portal("GET", "/scan"));
    assert!(!should_redirect_to_portal("GET", "/status"));
}

#[test]
fn no_redirect_omi_paths() {
    assert!(!should_redirect_to_portal("GET", "/omi"));
    assert!(!should_redirect_to_portal("GET", "/omi/Device/Temp"));
    assert!(!should_redirect_to_portal("GET", "/omi/ws"));
}

#[test]
fn no_redirect_non_get() {
    assert!(!should_redirect_to_portal("POST", "/random"));
    assert!(!should_redirect_to_portal("PUT", "/something"));
    assert!(!should_redirect_to_portal("DELETE", "/other"));
}

#[test]
fn decode_plain() {
    assert_eq!(url_decode("hello").unwrap(), "hello");
}

#[test]
fn decode_plus_to_space() {
    assert_eq!(url_decode("hello+world").unwrap(), "hello world");
}

#[test]
fn decode_percent() {
    assert_eq!(url_decode("hello%20world").unwrap(), "hello world");
    assert_eq!(url_decode("100%25").unwrap(), "100%");
}

#[test]
fn decode_mixed() {
    assert_eq!(url_decode("a%26b+c").unwrap(), "a&b c");
}

#[test]
fn decode_truncated_percent() {
    assert_eq!(url_decode("foo%2"), Err(FormError::InvalidEncoding));
    assert_eq!(url_decode("foo%"), Err(FormError::InvalidEncoding));
}

#[test]
fn decode_invalid_hex() {
    assert_eq!(url_decode("foo%GG"), Err(FormError::InvalidEncoding));
}

#[test]
fn decode_signed_hex_pair_and_invalid_utf8() {
    assert_eq!(url_decode("%+5").unwrap(), "\u{5}");
    assert_eq!(url_decode("%FF"), Err(FormError::InvalidEncoding));
    assert_eq!(url_decode("%C3%A9").unwrap(), "\u{e9}");
}

#[test]
fn parse_basic_form() {
    let body = "ssid_0=MyNetwork&password_0=secret123&hostname=mydevice&api_key_action=generate";
    let form = parse_provision_form(body, 3).unwrap();
    assert_eq!(form.credentials.len(), 1);
    assert_eq!(form.credentials[0].ssid, "MyNetwork");
    assert_eq!(form.credentials[0].password, "secret123");
    assert_eq!(form.hostname, Some("mydevice".into()));
    assert_eq!(form.api_key_action, ApiKeyAction::Generate);
}

#[test]
fn parse_multiple_aps() {
    let body = "ssid_0=Net1&password_0=pass1&ssid_1=Net2&password_1=pass2&api_key_action=keep";
    let form = parse_provision_form(body, 3).unwrap();
    assert_eq!(form.credentials.len(), 2);
    assert_eq!(form.credentials[0].ssid, "Net1");
    assert_eq!(form.credentials[1].ssid, "Net2");
}

#[test]
fn parse_skips_empty_ssids() {
    let body = "ssid_0=Net1&password_0=pass1&ssid_1=&password_1=pass2&api_key_action=keep";
    let form = parse_provision_form(body, 3).unwrap();
    assert_eq!(form.credentials.len(), 1);
    assert_eq!(form.credentials[0].ssid, "Net1");
}

#[test]
fn parse_no_credentials_error() {
    let body = "hostname=test&api_key_action=keep";
    assert_eq!(parse_provision_form(body, 3), Err(FormError::NoCredentials));
}

#[test]
fn parse_all_empty_ssids_error() {
    let body = "ssid_0=&ssid_1=&api_key_action=keep";
    assert_eq!(parse_provision_form(body, 3), Err(FormError::NoCredentials));
}

#[test]
fn parse_set_api_key() {
    let body = "ssid_0=Net&password_0=pass&api_key_action=set&api_key=my-secret-key";
    let form = parse_provision_form(body, 3).unwrap();
    assert_eq!(form.api_key_action, ApiKeyAction::SetValue("my-secret-key".into()));
}

#[test]
fn parse_set_without_value_falls_back_to_keep() {
    let body = "ssid_0=Net&password_0=pass&api_key_action=set&api_key=";
    let form = parse_provision_form(body, 3).unwrap();
    assert_eq!(form.api_key_action, ApiKeyAction::Keep);
}

#[test]
fn parse_url_encoded_values() {
    let body = "ssid_0=My%20Network&password_0=p%26ss%3Dw0rd&api_key_action=keep";
    let form = parse_provision_form(body, 3).unwrap();
    assert_eq!(form.credentials[0].ssid, "My Network");
    assert_eq!(form.credentials[0].password, "p&ss=w0rd");
}

#[test]
fn parse_respects_max_aps() {
    let body = "ssid_0=A&password_0=a&ssid_1=B&password_1=b&ssid_2=C&password_2=c&api_key_action=keep";
    let form = parse_provision_form(body, 2).unwrap();
    assert_eq!(form.credentials.len(), 2);
}

#[test]
fn parse_missing_password_defaults_empty() {
    let body = "ssid_0=OpenNet&api_key_action=keep";
    let form = parse_provision_form(body, 3).unwrap();
    assert_eq!(form.credentials[0].password, "");
}

#[test]
fn parse_default_api_key_action() {
    let body = "ssid_0=Net&password_0=pass";
    let form = parse_provision_form(body, 3).unwrap();
    assert_eq!(form.api_key_action, ApiKeyAction::Keep);
}

#[test]
fn parse_bad_encoding_anywhere_is_an_error() {
    assert_eq!(parse_provision_form("ssid_0=Net&other=%ZZ", 3), Err(FormError::InvalidEncoding));
}

#[test]
fn parse_first_password_for_a_slot_wins() {
    let body = "ssid_1=Net&password_1=first&password_1=second&password_0=zero";
    let form = parse_provision_form(body, 3).unwrap();
    assert_eq!(form.credentials[0].password, "first");
    assert_eq!(form.hostname, None);
}

#[test]
fn form_contains_required_elements() {
    let html = render_provisioning_form(3, &[], "eOMI", true, None);
    assert!(html.contains("<form method=\"POST\" action=\"/provision\""));
    assert!(html.contains("name=\"ssid_0\""));
    assert!(html.contains("name=\"password_0\""));
    assert!(html.contains("name=\"ssid_1\""));
    assert!(html.contains("name=\"ssid_2\""));
    assert!(html.contains("name=\"hostname\""));
    assert!(html.contains("name=\"api_key_action\""));
    assert!(html.contains("Device Setup"));
}

#[test]
fn form_prefills_saved_ssids() {
    let html = render_provisioning_form(3, &["SavedNet"], "myhost", false, None);
    assert!(html.contains("value=\"SavedNet\""));
    assert!(html.contains("value=\"myhost\""));
}

#[test]
fn form_escapes_html_in_values() {
    let html = render_provisioning_form(1, &["<script>"], "h\"ost", false, None);
    assert!(html.contains("&lt;script&gt;"));
    assert!(html.contains("h&quot;ost"));
    assert!(!html.contains("value=\"<script>\""));
}

#[test]
fn form_shows_error_message() {
    let html = render_provisioning_form(1, &[], "eOMI", true, Some("Connection failed"));
    assert!(html.contains("Connection failed"));
    assert!(html.contains("class=\"error\""));
}

#[test]
fn form_first_setup_no_keep_option() {
    let html = render_provisioning_form(1, &[], "eOMI", true, None);
    assert!(!html.contains("value=\"keep\""));
    assert!(html.contains("value=\"generate\""));
}

#[test]
fn form_reprovisioning_has_keep_option() {
    let html = render_provisioning_form(1, &["Net"], "eOMI", false, None);
    assert!(html.contains("value=\"keep\""));
}

#[test]
fn form_first_slot_required_only() {
    let html = render_provisioning_form(2, &[], "eOMI", true, None);
    assert_eq!(html.matches(" required").count(), 1);
    assert!(html.contains("WiFi Network (optional)"));
    assert!(html.contains("<option value=\"generate\" selected>"));
}

#[test]
fn redirect_response() {
    let (status, headers, body) = redirect_to_form("192.168.4.1");
    assert_eq!(status, 302);
    assert_eq!(headers[0].0, "Location");
    assert_eq!(headers[0].1, "http://192.168.4.1/");
    assert!(!body.is_empty());
}
