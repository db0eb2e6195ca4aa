use eomi_core::json::error::LiteParseError;
use eomi_core::json::lexer::Token;
use eomi_core::json::parser::{number_literals, FromJson, JsonParser};
use eomi_core::odf::object::{InfoItem, Object};
use eomi_core::odf::value::{RingBuffer, Value};
use eomi_core::odf::OmiValue;

/// The number table of an input: the bits of each number token's double.
fn number_table(input: &[u8]) -> Vec<(usize, u64)> {
    let mut out = Vec::new();
    for (q, t) in number_literals(input) {
        match t {
            Token::Integer(i) => out.push((q, (i as f64).to_bits())),
            Token::Number(s) => {
                if let Ok(x) = s.parse::<f64>() {
                    out.push((q, x.to_bits()));
                }
            }
            _ => {}
        }
    }
    out
}

fn from_json_str<T: FromJson>(s: &str) -> Result<T, LiteParseError> {
    T::from_json_bytes(s.as_bytes(), &number_table(s.as_bytes()))
}

fn num(x: f64) -> OmiValue {
    OmiValue::Number(x.to_bits())
}

fn entry<'a>(map: &'a [(String, Object)], name: &str) -> &'a Object {
    &map.iter().find(|(k, _)| k == name).unwrap().1
}

// ----- OmiValue -----

#[test]
fn parse_omi_null() {
    assert_eq!(from_json_str::<OmiValue>("null").unwrap(), OmiValue::Null);
}

#[test]
fn parse_omi_bool_true() {
    assert_eq!(from_json_str::<OmiValue>("true").unwrap(), OmiValue::Bool(true));
}

#[test]
fn parse_omi_bool_false() {
    assert_eq!(from_json_str::<OmiValue>("false").unwrap(), OmiValue::Bool(false));
}

#[test]
fn parse_omi_number_float() {
    assert_eq!(from_json_str::<OmiValue>("42.5").unwrap(), num(42.5));
}

#[test]
fn parse_omi_number_integer() {
    assert_eq!(from_json_str::<OmiValue>("42").unwrap(), num(42.0));
}

#[test]
fn parse_omi_string() {
    assert_eq!(from_json_str::<OmiValue>("\"hello\"").unwrap(), OmiValue::Str("hello".into()));
}

#[test]
fn parse_omi_negative_number() {
    assert_eq!(from_json_str::<OmiValue>("-3.14").unwrap(), num(-3.14));
}

// ----- Value -----

#[test]
fn parse_value_with_timestamp() {
    let v = from_json_str::<Value>(r#"{"v": 22.5, "t": 1000.0}"#).unwrap();
    assert_eq!(v.v, num(22.5));
    assert_eq!(v.t, Some(1000.0f64.to_bits()));
}

#[test]
fn parse_value_without_timestamp() {
    let v = from_json_str::<Value>(r#"{"v": true}"#).unwrap();
    assert_eq!(v.v, OmiValue::Bool(true));
    assert_eq!(v.t, None);
}

#[test]
fn parse_value_null_timestamp() {
    let v = from_json_str::<Value>(r#"{"v": "hi", "t": null}"#).unwrap();
    assert_eq!(v.v, OmiValue::Str("hi".into()));
    assert_eq!(v.t, None);
}

#[test]
fn parse_value_with_null_v() {
    let v = from_json_str::<Value>(r#"{"v": null}"#).unwrap();
    assert_eq!(v.v, OmiValue::Null);
}

#[test]
fn parse_value_ignores_unknown_fields() {
    let v = from_json_str::<Value>(r#"{"v": 1.0, "extra": "ignored", "t": 2.0}"#).unwrap();
    assert_eq!(v.v, num(1.0));
    assert_eq!(v.t, Some(2.0f64.to_bits()));
}

#[test]
fn parse_value_missing_v() {
    let err = from_json_str::<Value>(r#"{"t": 1.0}"#).unwrap_err();
    assert!(matches!(err, LiteParseError::MissingField { field: "v", .. }));
}

#[test]
fn parse_value_empty_object() {
    let err = from_json_str::<Value>(r#"{}"#).unwrap_err();
    assert!(matches!(err, LiteParseError::MissingField { field: "v", .. }));
}

#[test]
fn parse_value_integer_timestamp() {
    let v = from_json_str::<Value>(r#"{"v": 1, "t": 1000}"#).unwrap();
    assert_eq!(v.v, num(1.0));
    assert_eq!(v.t, Some(1000.0f64.to_bits()));
}

// ----- RingBuffer -----

#[test]
fn parse_ring_buffer_empty() {
    let rb = from_json_str::<RingBuffer>("[]").unwrap();
    assert_eq!(rb.len(), 0);
    assert_eq!(rb.capacity(), 1);
}

#[test]
fn parse_ring_buffer_single() {
    let rb = from_json_str::<RingBuffer>(r#"[{"v": 42.0, "t": 100.0}]"#).unwrap();
    assert_eq!(rb.len(), 1);
    assert_eq!(rb.capacity(), 1);
    let newest = rb.newest(1);
    assert_eq!(newest[0].v, num(42.0));
    assert_eq!(newest[0].t, Some(100.0f64.to_bits()));
}

#[test]
fn parse_ring_buffer_preserves_order() {
    // Input is newest-first: 3, 2, 1
    let json = r#"[
            {"v": 3.0, "t": 300.0},
            {"v": 2.0, "t": 200.0},
            {"v": 1.0, "t": 100.0}
        ]"#;
    let rb = from_json_str::<RingBuffer>(json).unwrap();
    assert_eq!(rb.len(), 3);

    let newest = rb.newest(3);
    assert_eq!(newest[0].v, num(3.0));
    assert_eq!(newest[1].v, num(2.0));
    assert_eq!(newest[2].v, num(1.0));
}

// ----- InfoItem -----

#[test]
fn parse_info_item_minimal() {
    let item = from_json_str::<InfoItem>(r#"{"values": []}"#).unwrap();
    assert!(item.type_uri.is_none());
    assert!(item.desc.is_none());
    assert!(item.meta.is_none());
    assert!(item.values.is_empty());
}

#[test]
fn parse_info_item_full() {
    let json = r#"{
            "type": "omi:temperature",
            "desc": "Room temperature",
            "meta": {"writable": true, "unit": "celsius"},
            "values": [
                {"v": 23.0, "t": 1001.0},
                {"v": 22.5, "t": 1000.0}
            ]
        }"#;
    let item = from_json_str::<InfoItem>(json).unwrap();
    assert_eq!(item.type_uri.as_deref(), Some("omi:temperature"));
    assert_eq!(item.desc.as_deref(), Some("Room temperature"));
    assert!(item.is_writable());
    assert_eq!(item.values.len(), 2);

    let newest = item.values.newest(1);
    assert_eq!(newest[0].v, num(23.0));
}

#[test]
fn parse_info_item_null_optional_fields() {
    let json = r#"{"type": null, "desc": null, "meta": null, "values": []}"#;
    let item = from_json_str::<InfoItem>(json).unwrap();
    assert!(item.type_uri.is_none());
    assert!(item.desc.is_none());
    assert!(item.meta.is_none());
}

#[test]
fn parse_info_item_ignores_unknown() {
    let json = r#"{"unknown_field": [1,2,3], "values": [{"v": 1.0}]}"#;
    let item = from_json_str::<InfoItem>(json).unwrap();
    assert_eq!(item.values.len(), 1);
}

#[test]
fn parse_info_item_missing_values() {
    let err = from_json_str::<InfoItem>(r#"{"type": "omi:temp"}"#).unwrap_err();
    assert!(matches!(err, LiteParseError::MissingField { field: "values", .. }));
}

// ----- Object -----

#[test]
fn parse_object_minimal() {
    let obj = from_json_str::<Object>(r#"{"id": "DeviceA"}"#).unwrap();
    assert_eq!(obj.id, "DeviceA");
    assert!(obj.type_uri.is_none());
    assert!(obj.desc.is_none());
    assert!(obj.items.is_none());
    assert!(obj.objects.is_none());
}

#[test]
fn parse_object_with_type_and_desc() {
    let json = r#"{"id": "A", "type": "omi:device", "desc": "Main controller"}"#;
    let obj = from_json_str::<Object>(json).unwrap();
    assert_eq!(obj.id, "A");
    assert_eq!(obj.type_uri.as_deref(), Some("omi:device"));
    assert_eq!(obj.desc.as_deref(), Some("Main controller"));
}

#[test]
fn parse_object_with_items() {
    let json = r#"{
            "id": "DeviceA",
            "items": {
                "Temperature": {
                    "type": "omi:temperature",
                    "values": [{"v": 22.5, "t": 1000.0}]
                }
            }
        }"#;
    let obj = from_json_str::<Object>(json).unwrap();
    assert_eq!(obj.id, "DeviceA");
    let item = obj.get_item("Temperature").unwrap();
    assert_eq!(item.type_uri.as_deref(), Some("omi:temperature"));
    assert_eq!(item.values.len(), 1);
}

#[test]
fn parse_object_nested() {
    let json = r#"{
            "id": "Root",
            "objects": {
                "Child": {
                    "id": "Child",
                    "items": {
                        "Voltage": {
                            "values": [{"v": 3.3}]
                        }
                    },
                    "objects": {
                        "GrandChild": {
                            "id": "GrandChild"
                        }
                    }
                }
            }
        }"#;
    let obj = from_json_str::<Object>(json).unwrap();
    assert_eq!(obj.id, "Root");
    let child = obj.get_child("Child").unwrap();
    assert_eq!(child.id, "Child");
    assert!(child.get_item("Voltage").is_some());
    assert!(child.get_child("GrandChild").is_some());
}

#[test]
fn parse_object_ignores_unknown_fields() {
    let obj = from_json_str::<Object>(r#"{"id": "A", "firmware": "v2.0", "serial": 12345}"#).unwrap();
    assert_eq!(obj.id, "A");
}

#[test]
fn parse_object_missing_id() {
    let err = from_json_str::<Object>(r#"{"type": "omi:device"}"#).unwrap_err();
    assert!(matches!(err, LiteParseError::MissingField { field: "id", .. }));
}

#[test]
fn parse_object_null_optional_fields() {
    let json = r#"{"id": "A", "type": null, "desc": null, "items": null, "objects": null}"#;
    let obj = from_json_str::<Object>(json).unwrap();
    assert_eq!(obj.id, "A");
    assert!(obj.type_uri.is_none());
    assert!(obj.items.is_none());
    assert!(obj.objects.is_none());
}

// ----- objects_map -----

#[test]
fn parse_objects_map() {
    let json = r#"{
            "DeviceA": {"id": "DeviceA"},
            "DeviceB": {"id": "DeviceB", "type": "omi:sensor"}
        }"#;
    let mut parser = JsonParser::new(json.as_bytes());
    let map = parser.parse_objects_map(&number_table(json.as_bytes())).unwrap();
    assert_eq!(map.len(), 2);
    assert_eq!(entry(&map, "DeviceA").id, "DeviceA");
    assert_eq!(entry(&map, "DeviceB").type_uri.as_deref(), Some("omi:sensor"));
}

#[test]
fn parse_objects_map_empty() {
    let mut parser = JsonParser::new(b"{}");
    let map = parser.parse_objects_map(&Vec::new()).unwrap();
    assert!(map.is_empty());
}

#[test]
fn parse_write_tree_nested_objects_and_items() {
    let json = r#"{
            "DeviceA": {
                "id": "DeviceA",
                "type": "omi:device",
                "items": {
                    "Temperature": {
                        "type": "omi:temperature",
                        "desc": "Room temp",
                        "values": [
                            {"v": 23.5, "t": 1001.0},
                            {"v": 22.0, "t": 1000.0}
                        ]
                    },
                    "Humidity": {
                        "values": [{"v": 65.0}]
                    }
                },
                "objects": {
                    "SubUnit": {
                        "id": "SubUnit",
                        "items": {
                            "Status": {
                                "values": [{"v": "active"}]
                            }
                        }
                    }
                }
            }
        }"#;
    let mut parser = JsonParser::new(json.as_bytes());
    let map = parser.parse_objects_map(&number_table(json.as_bytes())).unwrap();

    let dev = entry(&map, "DeviceA");
    assert_eq!(dev.id, "DeviceA");
    assert_eq!(dev.type_uri.as_deref(), Some("omi:device"));

    let temp = dev.get_item("Temperature").unwrap();
    assert_eq!(temp.desc.as_deref(), Some("Room temp"));
    assert_eq!(temp.values.len(), 2);
    let newest = temp.values.newest(1);
    assert_eq!(newest[0].v, num(23.5));

    let humidity = dev.get_item("Humidity").unwrap();
    assert_eq!(humidity.values.len(), 1);

    let sub = dev.get_child("SubUnit").unwrap();
    let status = sub.get_item("Status").unwrap();
    assert_eq!(status.values.newest(1)[0].v, OmiValue::Str("active".into()));
}

// ----- Error cases -----

#[test]
fn parse_truncated_input() {
    assert!(from_json_str::<Object>(r#"{"id": "A""#).is_err());
}

#[test]
fn parse_empty_input() {
    assert!(from_json_str::<Object>("").is_err());
}

#[test]
fn parse_trailing_data() {
    let err = from_json_str::<Object>(r#"{"id": "A"} extra"#).unwrap_err();
    assert!(matches!(err, LiteParseError::TrailingData { .. }));
}

#[test]
fn parse_whitespace_only() {
    assert!(from_json_str::<Object>("   ").is_err());
}

// ----- further cases -----

#[test]
fn number_literals_end_offsets() {
    let lits = number_literals(br#"{"a": 12, "b": [1.5, true], "c": -3}"#);
    let ends: Vec<usize> = lits.iter().map(|(q, _)| *q).collect();
    assert_eq!(ends, vec![8, 19, 35]);
    assert!(matches!(lits[0].1, Token::Integer(12)));
    assert!(matches!(lits[2].1, Token::Integer(-3)));
}

#[test]
fn number_literals_stop_at_lexical_error() {
    let lits = number_literals(b"[1, 2, @ 3]");
    assert_eq!(lits.len(), 2);
}

#[test]
fn number_missing_from_table_is_invalid() {
    let err = Value::from_json_bytes(br#"{"v": 5}"#, &Vec::new()).unwrap_err();
    assert!(matches!(err, LiteParseError::InvalidNumber { .. }));
}

#[test]
fn later_duplicate_key_wins_and_null_keeps_text() {
    let obj = from_json_str::<Object>(r#"{"id": "A", "type": "x", "type": null, "id": "B"}"#).unwrap();
    assert_eq!(obj.id, "B");
    assert_eq!(obj.type_uri.as_deref(), Some("x"));
}

#[test]
fn object_separator_error() {
    let err = from_json_str::<Object>(r#"{"id": "A" "x": 1}"#).unwrap_err();
    assert!(matches!(err, LiteParseError::ExpectedToken { expected: "',' or '}'", .. }));
}

#[test]
fn deep_nesting_is_refused() {
    let mut s = String::new();
    for _ in 0..40 {
        s.push_str(r#"{"id": "x", "objects": {"c": "#);
    }
    let err = from_json_str::<Object>(&s).unwrap_err();
    assert!(matches!(err, LiteParseError::DepthExceeded { .. }));
}

#[test]
fn items_keep_sorted_names_and_history_capacity() {
    let json = r#"{"id": "A", "items": {"b": {"values": [{"v": 1}, {"v": 2}]}, "a": {"values": []}}}"#;
    let obj = from_json_str::<Object>(json).unwrap();
    let items = obj.items.as_ref().unwrap();
    assert_eq!(items[0].0, "a");
    assert_eq!(items[1].0, "b");
    assert_eq!(items[1].1.values.capacity(), 2);
    let vals = items[1].1.values.values_oldest_first();
    assert_eq!(vals[0].v, num(2.0));
    assert_eq!(vals[1].v, num(1.0));
}
