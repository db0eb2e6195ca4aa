use eomi_core::device::{deserialize_saved_items, serialize_saved_items, NvsSaveError, SavedItem, MAX_NVS_BLOB};
use eomi_core::odf::OmiValue;

#[test]
fn serialize_empty() {
    let blob = serialize_saved_items(&[]).unwrap();
    // version(1) + count(2) = 3 bytes
    assert_eq!(blob.len(), 3);
    assert_eq!(blob[0], 0x01); // version
    assert_eq!(blob[1..3], [0, 0]); // count = 0
}

#[test]
fn serialize_single_item() {
    let items = vec![SavedItem {
        path: "/A/B".into(),
        v: OmiValue::Number(42.0_f64.to_bits()),
        t: Some(1000.0_f64.to_bits()),
    }];
    let blob = serialize_saved_items(&items).unwrap();
    assert_eq!(blob[0], 0x01); // version
    let restored = deserialize_saved_items(&blob).unwrap();
    assert_eq!(restored, items);
}

#[test]
fn serialize_too_large() {
    let items: Vec<SavedItem> = (0..500)
        .map(|i| SavedItem {
            path: format!("/Object{}/LongItemName{}", i, i),
            v: OmiValue::Str("x".repeat(20)),
            t: Some((i as f64).to_bits()),
        })
        .collect();
    let err = serialize_saved_items(&items).unwrap_err();
    match err {
        NvsSaveError::TooLarge(size) => assert!(size > MAX_NVS_BLOB),
        other => panic!("expected TooLarge, got {:?}", other),
    }
}

#[test]
fn serialize_under_limit() {
    let items = vec![
        SavedItem { path: "/A/X".into(), v: OmiValue::Number(1.0_f64.to_bits()), t: None },
        SavedItem { path: "/A/Y".into(), v: OmiValue::Bool(true), t: Some(99.0_f64.to_bits()) },
    ];
    let blob = serialize_saved_items(&items).unwrap();
    assert!(blob.len() <= MAX_NVS_BLOB);
}

#[test]
fn deserialize_empty_items() {
    let blob = serialize_saved_items(&[]).unwrap();
    let items = deserialize_saved_items(&blob).unwrap();
    assert!(items.is_empty());
}

#[test]
fn deserialize_invalid_data() {
    assert!(deserialize_saved_items(b"not binary").is_err());
}

#[test]
fn deserialize_wrong_version() {
    assert!(deserialize_saved_items(&[0xFF, 0, 0]).is_err());
}

#[test]
fn deserialize_truncated() {
    // Valid version but truncated count
    assert!(deserialize_saved_items(&[0x01]).is_err());
}

#[test]
fn serialize_deserialize_roundtrip() {
    let items = vec![
        SavedItem { path: "/A/B".into(), v: OmiValue::Number(42.0_f64.to_bits()), t: Some(1000.0_f64.to_bits()) },
        SavedItem { path: "/C/D".into(), v: OmiValue::Str("hello".into()), t: None },
        SavedItem { path: "/E/F".into(), v: OmiValue::Bool(true), t: Some(2000.0_f64.to_bits()) },
    ];
    let blob = serialize_saved_items(&items).unwrap();
    let restored = deserialize_saved_items(&blob).unwrap();
    assert_eq!(items, restored);
}

#[test]
fn roundtrip_null_value() {
    let items = vec![SavedItem {
        path: "/X/Y".into(),
        v: OmiValue::Null,
        t: None,
    }];
    let blob = serialize_saved_items(&items).unwrap();
    let restored = deserialize_saved_items(&blob).unwrap();
    assert_eq!(items, restored);
}

#[test]
fn roundtrip_all_value_types() {
    let items = vec![
        SavedItem { path: "/null".into(), v: OmiValue::Null, t: None },
        SavedItem { path: "/false".into(), v: OmiValue::Bool(false), t: Some(1.0_f64.to_bits()) },
        SavedItem { path: "/true".into(), v: OmiValue::Bool(true), t: None },
        SavedItem { path: "/num".into(), v: OmiValue::Number(3.14_f64.to_bits()), t: Some(2.0_f64.to_bits()) },
        SavedItem { path: "/str".into(), v: OmiValue::Str("test".into()), t: None },
    ];
    let blob = serialize_saved_items(&items).unwrap();
    let restored = deserialize_saved_items(&blob).unwrap();
    assert_eq!(items, restored);
}

#[test]
fn roundtrip_unicode_strings() {
    let items = vec![
        SavedItem { path: "/日本語/パス".into(), v: OmiValue::Str("こんにちは".into()), t: None },
        SavedItem { path: "/emoji".into(), v: OmiValue::Str("🌡️".into()), t: Some(1.0_f64.to_bits()) },
    ];
    let blob = serialize_saved_items(&items).unwrap();
    let restored = deserialize_saved_items(&blob).unwrap();
    assert_eq!(items, restored);
}

#[test]
fn roundtrip_empty_path_and_string() {
    let items = vec![
        SavedItem { path: "".into(), v: OmiValue::Str(String::new()), t: None },
    ];
    let blob = serialize_saved_items(&items).unwrap();
    let restored = deserialize_saved_items(&blob).unwrap();
    assert_eq!(items, restored);
}

#[test]
fn roundtrip_max_length_path() {
    let long_path = "/".to_string() + &"a".repeat(1000);
    let items = vec![SavedItem {
        path: long_path.clone(),
        v: OmiValue::Number(0.0_f64.to_bits()),
        t: None,
    }];
    let blob = serialize_saved_items(&items).unwrap();
    let restored = deserialize_saved_items(&blob).unwrap();
    assert_eq!(restored[0].path, long_path);
}

// --- Adversarial / error-path tests ---

#[test]
fn deserialize_future_version_tag() {
    // Version 0x02 — a hypothetical future version should be rejected gracefully
    assert!(deserialize_saved_items(&[0x02, 0, 0]).unwrap_err().contains("unsupported version"));
    // Version 0x00 — below current
    assert!(deserialize_saved_items(&[0x00, 0, 0]).unwrap_err().contains("unsupported version"));
    // High version byte
    assert!(deserialize_saved_items(&[0x7F, 0, 0]).unwrap_err().contains("unsupported version"));
}

#[test]
fn deserialize_truncated_mid_path_length() {
    // Valid header (version + count=1) but path_len is truncated (only 1 byte of u16)
    let data = [0x01, 1, 0, 0x05]; // version=1, count=1, path_len starts but only 1 byte
    assert!(deserialize_saved_items(&data).is_err());
}

#[test]
fn deserialize_truncated_mid_path_data() {
    // version=1, count=1, path_len=10, but only 3 bytes of path follow
    let mut data = vec![0x01, 1, 0]; // version + count=1
    data.extend_from_slice(&10u16.to_le_bytes()); // path_len=10
    data.extend_from_slice(b"abc"); // only 3 bytes of path
    assert!(deserialize_saved_items(&data).is_err());
}

#[test]
fn deserialize_truncated_before_type_tag() {
    // version=1, count=1, valid path, then EOF before type tag
    let mut data = vec![0x01, 1, 0]; // version + count=1
    data.extend_from_slice(&2u16.to_le_bytes()); // path_len=2
    data.extend_from_slice(b"/A"); // path
    // Missing type tag
    assert!(deserialize_saved_items(&data).is_err());
}

#[test]
fn deserialize_truncated_mid_f64_value() {
    // version=1, count=1, path="/A", type=Number(3), then only 4 of 8 f64 bytes
    let mut data = vec![0x01, 1, 0]; // version + count=1
    data.extend_from_slice(&2u16.to_le_bytes()); // path_len=2
    data.extend_from_slice(b"/A"); // path
    data.push(3); // type_tag = Number
    data.extend_from_slice(&[0u8; 4]); // only 4 bytes of f64 (need 8)
    assert!(deserialize_saved_items(&data).is_err());
}

#[test]
fn deserialize_truncated_mid_string_length() {
    // type=Str(4), then only 1 byte of string length u16
    let mut data = vec![0x01, 1, 0];
    data.extend_from_slice(&2u16.to_le_bytes());
    data.extend_from_slice(b"/A");
    data.push(4); // type_tag = Str
    data.push(0x05); // only 1 byte of string length
    assert!(deserialize_saved_items(&data).is_err());
}

#[test]
fn deserialize_truncated_mid_string_data() {
    // type=Str, string_len=10, but only 3 bytes of string data
    let mut data = vec![0x01, 1, 0];
    data.extend_from_slice(&2u16.to_le_bytes());
    data.extend_from_slice(b"/A");
    data.push(4); // type_tag = Str
    data.extend_from_slice(&10u16.to_le_bytes()); // string_len=10
    data.extend_from_slice(b"abc"); // only 3 bytes
    assert!(deserialize_saved_items(&data).is_err());
}

#[test]
fn deserialize_truncated_before_has_t() {
    // Complete value but EOF before has_t byte
    let mut data = vec![0x01, 1, 0];
    data.extend_from_slice(&2u16.to_le_bytes());
    data.extend_from_slice(b"/A");
    data.push(0); // type_tag = Null
    // Missing has_t byte
    assert!(deserialize_saved_items(&data).is_err());
}

#[test]
fn deserialize_truncated_mid_timestamp() {
    // has_t=1 but only 4 of 8 timestamp bytes
    let mut data = vec![0x01, 1, 0];
    data.extend_from_slice(&2u16.to_le_bytes());
    data.extend_from_slice(b"/A");
    data.push(0); // Null
    data.push(1); // has_t = true
    data.extend_from_slice(&[0u8; 4]); // only 4 bytes of f64
    assert!(deserialize_saved_items(&data).is_err());
}

#[test]
fn deserialize_unknown_type_tag() {
    // type_tag = 5 (unknown — only 0-4 are valid)
    let mut data = vec![0x01, 1, 0];
    data.extend_from_slice(&2u16.to_le_bytes());
    data.extend_from_slice(b"/A");
    data.push(5); // unknown type tag
    let err = deserialize_saved_items(&data).unwrap_err();
    assert!(err.contains("unknown type tag"), "got: {}", err);
}

#[test]
fn deserialize_unknown_type_tag_high() {
    // type_tag = 0xFF
    let mut data = vec![0x01, 1, 0];
    data.extend_from_slice(&2u16.to_le_bytes());
    data.extend_from_slice(b"/A");
    data.push(0xFF);
    assert!(deserialize_saved_items(&data).unwrap_err().contains("unknown type tag"));
}

#[test]
fn deserialize_count_exceeds_data() {
    // Claims 1000 items but has no item data
    let mut data = vec![0x01];
    data.extend_from_slice(&1000u16.to_le_bytes());
    assert!(deserialize_saved_items(&data).is_err());
}

#[test]
fn deserialize_invalid_utf8_path() {
    // Path contains invalid UTF-8
    let mut data = vec![0x01, 1, 0]; // version + count=1
    data.extend_from_slice(&3u16.to_le_bytes()); // path_len=3
    data.extend_from_slice(&[0xFF, 0xFE, 0xFD]); // invalid UTF-8
    data.push(0); // type_tag = Null
    data.push(0); // has_t = false
    assert!(deserialize_saved_items(&data).is_err());
}

#[test]
fn deserialize_invalid_utf8_string_value() {
    // String value contains invalid UTF-8
    let mut data = vec![0x01, 1, 0];
    data.extend_from_slice(&2u16.to_le_bytes());
    data.extend_from_slice(b"/A"); // valid path
    data.push(4); // type_tag = Str
    data.extend_from_slice(&3u16.to_le_bytes()); // string_len=3
    data.extend_from_slice(&[0xFF, 0xFE, 0xFD]); // invalid UTF-8
    data.push(0); // has_t = false
    assert!(deserialize_saved_items(&data).is_err());
}

#[test]
fn deserialize_corrupt_first_item_valid_second() {
    // Two items claimed, but first has corrupt type tag — should fail on first
    let mut data = vec![0x01, 2, 0]; // version + count=2
    data.extend_from_slice(&2u16.to_le_bytes());
    data.extend_from_slice(b"/A");
    data.push(99); // bad type tag on first item
    // Second item would be valid but we never reach it
    assert!(deserialize_saved_items(&data).is_err());
}

#[test]
fn binary_is_compact() {
    // Verify binary is more compact than equivalent JSON would be
    let items = vec![
        SavedItem { path: "/A/B".into(), v: OmiValue::Number(42.0_f64.to_bits()), t: Some(1000.0_f64.to_bits()) },
        SavedItem { path: "/C/D".into(), v: OmiValue::Str("hello".into()), t: None },
    ];
    let blob = serialize_saved_items(&items).unwrap();
    // Binary should be well under 100 bytes for this
    assert!(blob.len() < 100, "binary blob unexpectedly large: {} bytes", blob.len());
}

#[test]
fn saved_blob_exact_bytes() {
    let items = vec![SavedItem { path: "/a".into(), v: OmiValue::Bool(true), t: Some(0x0102030405060708) }];
    let blob = serialize_saved_items(&items).unwrap();
    assert_eq!(blob, vec![1, 1, 0, 2, 0, b'/', b'a', 2, 1, 8, 7, 6, 5, 4, 3, 2, 1]);
}

#[test]
fn saved_error_messages_exact() {
    assert_eq!(deserialize_saved_items(&[]).unwrap_err(), "unexpected end of data");
    assert_eq!(deserialize_saved_items(&[2, 0, 0]).unwrap_err(), "unsupported version: 2");
    assert_eq!(deserialize_saved_items(&[1, 1, 0, 0, 0, 5]).unwrap_err(), "unknown type tag: 5");
    assert_eq!(deserialize_saved_items(&[1, 1, 0, 0, 0, 0]).unwrap_err(), "unexpected end of data");
}

#[test]
fn saved_time_flag_other_than_one_is_none() {
    let items = deserialize_saved_items(&[1, 1, 0, 0, 0, 0, 7]).unwrap();
    assert_eq!(items, vec![SavedItem { path: String::new(), v: OmiValue::Null, t: None }]);
}

#[test]
fn saved_trailing_bytes_ignored() {
    let items = deserialize_saved_items(&[1, 0, 0, 9, 9, 9]).unwrap();
    assert!(items.is_empty());
}

#[test]
fn saved_path_too_long_fails() {
    let items = vec![SavedItem { path: "p".repeat(70000), v: OmiValue::Null, t: None }];
    assert_eq!(serialize_saved_items(&items), Err(NvsSaveError::SerializeFailed));
}
