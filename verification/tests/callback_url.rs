use eomi_core::callback_url::{is_javascript_callback, parse_callback_url, CallbackScheme};

#[test]
fn parse_javascript_url() {
    let scheme = parse_callback_url("javascript://Objects/Device/MetaData/script");
    assert_eq!(
        scheme,
        Some(CallbackScheme::JavaScript { path: "Objects/Device/MetaData/script".into() })
    );
}

#[test]
fn parse_javascript_url_triple_slash() {
    let scheme = parse_callback_url("javascript:///Objects/Device/MetaData/script");
    assert_eq!(
        scheme,
        Some(CallbackScheme::JavaScript { path: "Objects/Device/MetaData/script".into() })
    );
}

#[test]
fn parse_javascript_url_empty_path() {
    let scheme = parse_callback_url("javascript://");
    assert_eq!(scheme, Some(CallbackScheme::JavaScript { path: "".into() }));
}

#[test]
fn parse_javascript_case_insensitive() {
    let scheme = parse_callback_url("JavaScript://Some/Path");
    assert_eq!(scheme, Some(CallbackScheme::JavaScript { path: "Some/Path".into() }));
}

#[test]
fn parse_http_url() {
    assert_eq!(parse_callback_url("http://192.168.1.1/callback"), Some(CallbackScheme::Http));
}

#[test]
fn parse_https_url() {
    assert_eq!(parse_callback_url("https://example.com/cb"), Some(CallbackScheme::Http));
}

#[test]
fn parse_unknown_scheme() {
    assert_eq!(parse_callback_url("ftp://files/data"), None);
}

#[test]
fn callback_url_parse_empty_string() {
    assert_eq!(parse_callback_url(""), None);
}

#[test]
fn parse_garbage() {
    assert_eq!(parse_callback_url("not-a-url"), None);
}

#[test]
fn is_javascript_true() {
    assert!(is_javascript_callback("javascript://Objects/X"));
}

#[test]
fn is_javascript_false_http() {
    assert!(!is_javascript_callback("http://example.com"));
}

#[test]
fn is_javascript_false_empty() {
    assert!(!is_javascript_callback(""));
}

#[test]
fn is_javascript_case_insensitive() {
    assert!(is_javascript_callback("JAVASCRIPT://Foo"));
}

#[test]
fn javascript_prefix_shorter_than_scheme_is_rejected() {
    assert_eq!(parse_callback_url("javascript:/x"), None);
    assert_eq!(parse_callback_url("HTTPS://x"), None);
}
