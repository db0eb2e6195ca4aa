use eomi_core::json::lexer::{Lexer, Token};
use eomi_core::captive_portal::{ConnectionState, ConnectionStatus, ScannedNetwork};
use eomi_core::json::serializer::{
    write_cancel_op, write_delete_op, write_item_status, write_omi_envelope, write_response_body,
    JsonWriter, ToJson,
};

fn text(w: JsonWriter) -> String {
    String::from_utf8(w.into_bytes()).unwrap()
}

#[test]
fn writer_places_commas_between_elements() {
    let mut w = JsonWriter::new();
    w.begin_object();
    w.field_str("a", "x");
    w.field_u64("b", 7);
    w.key("c");
    w.begin_array();
    w.null();
    w.bool_val(true);
    w.bool_val(false);
    w.begin_object();
    w.end_object();
    w.end_array();
    w.end_object();
    assert_eq!(text(w), r#"{"a":"x","b":7,"c":[null,true,false,{}]}"#);
}

#[test]
fn writer_escapes_strings() {
    let mut w = JsonWriter::with_capacity(16);
    w.string("q\"b\\n\nr\rt\t\u{8}\u{c}\u{1}\u{1f}é");
    assert_eq!(text(w), "\"q\\\"b\\\\n\\nr\\rt\\t\\b\\f\\u0001\\u001fé\"");
}

#[test]
fn writer_numbers() {
    let mut w = JsonWriter::new();
    w.begin_array();
    w.i64_val(0);
    w.i64_val(-42);
    w.i64_val(i64::MIN);
    w.i64_val(i64::MAX);
    w.u16_val(65535);
    w.u64_val(u64::MAX);
    w.end_array();
    assert_eq!(
        text(w),
        "[0,-42,-9223372036854775808,9223372036854775807,65535,18446744073709551615]"
    );
}

#[test]
fn optional_fields_are_skipped_when_absent() {
    let mut w = JsonWriter::new();
    w.begin_object();
    w.field_str_opt("a", None);
    w.field_u64_opt("b", None);
    w.field_str_opt("c", Some("v"));
    w.field_u64_opt("d", Some(3));
    w.field_bool("e", false);
    w.field_i64("f", -1);
    w.field_u16("g", 201);
    w.end_object();
    assert_eq!(text(w), r#"{"c":"v","d":3,"e":false,"f":-1,"g":201}"#);
}

#[test]
fn raw_json_is_written_verbatim() {
    let mut w = JsonWriter::new();
    w.begin_array();
    w.raw_json(r#"{"x":1}"#);
    w.raw_json("2");
    w.end_array();
    assert_eq!(text(w), r#"[{"x":1},2]"#);
}

#[test]
fn envelope_wraps_operation() {
    let mut w = JsonWriter::new();
    write_omi_envelope(&mut w, "1.0", 0, "delete", |w| write_delete_op(w, "/A/B"));
    assert_eq!(text(w), r#"{"omi":"1.0","ttl":0,"delete":{"path":"/A/B"}}"#);
}

#[test]
fn cancel_op_lists_rids() {
    let mut w = JsonWriter::new();
    write_cancel_op(&mut w, &["r1", "r2"]);
    assert_eq!(text(w), r#"{"rid":["r1","r2"]}"#);
}

#[test]
fn item_status_with_and_without_desc() {
    let mut w = JsonWriter::new();
    w.begin_array();
    write_item_status(&mut w, "/A", 200, None);
    write_item_status(&mut w, "/B", 404, Some("missing"));
    w.end_array();
    assert_eq!(text(w), r#"[{"path":"/A","status":200},{"path":"/B","status":404,"desc":"missing"}]"#);
}

#[test]
fn response_body_with_result() {
    let mut w = JsonWriter::new();
    let result = |w: &mut JsonWriter| w.i64_val(5);
    write_response_body(&mut w, 200, Some("req-1"), None, Some(&result));
    assert_eq!(text(w), r#"{"status":200,"rid":"req-1","result":5}"#);
}

#[test]
fn response_body_without_result() {
    let mut w = JsonWriter::new();
    write_response_body::<fn(&mut JsonWriter)>(&mut w, 404, None, Some("Not found"), None);
    assert_eq!(text(w), r#"{"status":404,"desc":"Not found"}"#);
}

#[test]
fn scanned_network_json() {
    let n = ScannedNetwork { ssid: "Home".into(), rssi: -45, auth: "WPA2".into() };
    assert_eq!(String::from_utf8(n.to_json_bytes()).unwrap(), r#"{"ssid":"Home","rssi":-45,"auth":"WPA2"}"#);
}

#[test]
fn connection_status_json_forms() {
    let s = ConnectionStatus { state: ConnectionState::Connected, message: None, ip: Some("192.168.1.100".into()) };
    assert_eq!(String::from_utf8(s.to_json_bytes()).unwrap(), r#"{"state":"connected","ip":"192.168.1.100"}"#);
    let f = ConnectionStatus { state: ConnectionState::Failed, message: Some("Wrong password".into()), ip: None };
    assert_eq!(String::from_utf8(f.to_json_bytes()).unwrap(), r#"{"state":"failed","message":"Wrong password"}"#);
    let i = ConnectionStatus { state: ConnectionState::Idle, message: None, ip: None };
    assert_eq!(String::from_utf8(i.to_json_bytes()).unwrap(), r#"{"state":"idle"}"#);
}

#[test]
fn written_string_reads_back_through_lexer() {
    for s in ["plain", "quote \" and \\ slash", "ctl \u{1}\u{1f}\n\r\t\u{8}\u{c}", "ümlaut € 😀", ""] {
        let mut w = JsonWriter::new();
        w.string(s);
        let bytes = w.into_bytes();
        assert!(bytes.iter().all(|b| *b >= 0x20));
        let mut lex = Lexer::new(&bytes);
        assert_eq!(lex.next_token().unwrap(), Some(Token::String(s.to_string())));
        assert!(lex.is_eof());
    }
}
