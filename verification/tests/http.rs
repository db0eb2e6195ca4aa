use eomi_core::http::{
    html_escape, omi_uri_to_odf_path, parse_query_params, render_landing_page, uri_path, uri_query,
};

#[test]
fn html_escape_special_chars() {
    assert_eq!(html_escape("<script>"), "&lt;script&gt;");
    assert_eq!(html_escape("a&b"), "a&amp;b");
    assert_eq!(html_escape("x\"y"), "x&quot;y");
    assert_eq!(html_escape("a'b"), "a&#x27;b");
    assert_eq!(html_escape("/normal/path"), "/normal/path");
}

#[test]
fn landing_page_empty() {
    let html = render_landing_page(&[]);
    assert!(html.contains("No pages stored yet."));
    assert!(html.contains("Reconfigurable Device"));
}

#[test]
fn landing_page_with_pages() {
    let html = render_landing_page(&["/about", "/hello"]);
    assert!(html.contains("<a href=\"/about\">/about</a>"));
    assert!(html.contains("<a href=\"/hello\">/hello</a>"));
    assert!(!html.contains("No pages stored yet."));
}

#[test]
fn landing_page_exact_markup() {
    let html = render_landing_page(&["/a<b"]);
    assert_eq!(
        html,
        "<!DOCTYPE html><html><body><h1>Reconfigurable Device</h1><p>Status: running</p><p>PATCH HTML to any path to store a page.</p><h2>Stored pages</h2><ul><li><a href=\"/a&lt;b\">/a&lt;b</a></li></ul></body></html>"
    );
}

#[test]
fn uri_query_present() {
    assert_eq!(uri_query("/omi/Dev?newest=1"), Some("newest=1"));
}

#[test]
fn uri_query_absent() {
    assert_eq!(uri_query("/omi/Dev"), None);
}

#[test]
fn uri_query_empty_after_question() {
    assert_eq!(uri_query("/omi?"), Some(""));
}

#[test]
fn parse_query_basic() {
    let pairs = parse_query_params("newest=1&oldest=5");
    assert_eq!(pairs, vec![("newest", "1"), ("oldest", "5")]);
}

#[test]
fn parse_query_skips_bare_key() {
    let pairs = parse_query_params("foo&bar=2");
    assert_eq!(pairs, vec![("bar", "2")]);
}

#[test]
fn parse_query_empty_value() {
    let pairs = parse_query_params("key=");
    assert_eq!(pairs, vec![("key", "")]);
}

#[test]
fn parse_query_empty_string() {
    let pairs = parse_query_params("");
    assert!(pairs.is_empty());
}

#[test]
fn parse_query_value_keeps_later_equals_and_skips_empty_key() {
    let pairs = parse_query_params("a=b=c&=x");
    assert_eq!(pairs, vec![("a", "b=c")]);
}

#[test]
fn uri_to_path_root() {
    assert_eq!(omi_uri_to_odf_path("/omi"), ("/", true));
    assert_eq!(omi_uri_to_odf_path("/omi/"), ("/", true));
}

#[test]
fn uri_to_path_object() {
    assert_eq!(omi_uri_to_odf_path("/omi/DeviceA/"), ("/DeviceA", true));
}

#[test]
fn uri_to_path_infoitem() {
    assert_eq!(omi_uri_to_odf_path("/omi/DeviceA/Temp"), ("/DeviceA/Temp", false));
}

#[test]
fn uri_to_path_deep() {
    assert_eq!(
        omi_uri_to_odf_path("/omi/House/Floor1/Room101/Temp"),
        ("/House/Floor1/Room101/Temp", false)
    );
}

#[test]
fn uri_to_path_no_false_prefix_match() {
    assert_eq!(omi_uri_to_odf_path("/omission"), ("/omission", false));
    assert_eq!(omi_uri_to_odf_path("/omitted/data"), ("/omitted/data", false));
}

#[test]
fn uri_to_path_many_trailing_slashes() {
    assert_eq!(omi_uri_to_odf_path("/omi//"), ("/", true));
    assert_eq!(omi_uri_to_odf_path("/omi/A//"), ("/A", true));
}

#[test]
fn uri_path_strips_query() {
    assert_eq!(uri_path("/omi/Dev?newest=1"), "/omi/Dev");
}

#[test]
fn uri_path_no_query() {
    assert_eq!(uri_path("/omi/Dev"), "/omi/Dev");
}

#[test]
fn uri_path_empty_query() {
    assert_eq!(uri_path("/omi?"), "/omi");
}

#[test]
fn uri_path_empty_string() {
    assert_eq!(uri_path(""), "");
}
