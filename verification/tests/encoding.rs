use eomi_core::gpio::encoding::{parse_encoding, tx_bytes, DataEncoding};
use eomi_core::odf::OmiValue;

#[test]
fn from_str_string() {
    assert_eq!("string".parse::<DataEncoding>().unwrap(), DataEncoding::String);
}

#[test]
fn from_str_hex() {
    assert_eq!("hex".parse::<DataEncoding>().unwrap(), DataEncoding::Hex);
}

#[test]
fn from_str_base64() {
    assert_eq!("base64".parse::<DataEncoding>().unwrap(), DataEncoding::Base64);
}

#[test]
fn from_str_unknown() {
    assert!("unknown".parse::<DataEncoding>().is_err());
}

#[test]
fn from_str_empty() {
    assert!("".parse::<DataEncoding>().is_err());
}

#[test]
fn as_str_from_str_roundtrip() {
    for enc in [DataEncoding::String, DataEncoding::Hex, DataEncoding::Base64] {
        assert_eq!(enc.as_str().parse::<DataEncoding>().unwrap(), enc);
    }
}

#[test]
fn display() {
    assert_eq!(DataEncoding::Hex.to_string(), "hex");
}

#[test]
fn string_decode() {
    assert_eq!(DataEncoding::String.decode("Hello").unwrap(), b"Hello");
}

#[test]
fn string_encode() {
    assert_eq!(DataEncoding::String.encode(b"Hello"), "Hello");
}

#[test]
fn string_encode_invalid_utf8() {
    let result = DataEncoding::String.encode(&[0xFF, 0xFE]);
    assert!(result.contains('\u{FFFD}'));
}

#[test]
fn string_roundtrip() {
    let original = "Hello, World!";
    let bytes = DataEncoding::String.decode(original).unwrap();
    assert_eq!(DataEncoding::String.encode(&bytes), original);
}

#[test]
fn hex_decode_hello() {
    assert_eq!(DataEncoding::Hex.decode("48656C6C6F").unwrap(), b"Hello");
}

#[test]
fn hex_decode_lowercase() {
    assert_eq!(DataEncoding::Hex.decode("48656c6c6f").unwrap(), b"Hello");
}

#[test]
fn hex_decode_empty() {
    assert_eq!(DataEncoding::Hex.decode("").unwrap(), b"");
}

#[test]
fn hex_decode_odd_length() {
    assert!(DataEncoding::Hex.decode("ABC").is_err());
}

#[test]
fn hex_decode_invalid_chars() {
    assert!(DataEncoding::Hex.decode("ZZZZ").is_err());
}

#[test]
fn hex_roundtrip() {
    let data = b"Hello, World!";
    let hex = DataEncoding::Hex.encode(data);
    assert_eq!(DataEncoding::Hex.decode(&hex).unwrap(), data);
}

#[test]
fn base64_decode_hello() {
    assert_eq!(DataEncoding::Base64.decode("SGVsbG8=").unwrap(), b"Hello");
}

#[test]
fn base64_decode_no_padding() {
    assert_eq!(DataEncoding::Base64.decode("SGVsbG8").unwrap(), b"Hello");
}

#[test]
fn base64_decode_aqid() {
    assert_eq!(DataEncoding::Base64.decode("AQID").unwrap(), vec![1, 2, 3]);
}

#[test]
fn base64_decode_empty() {
    assert_eq!(DataEncoding::Base64.decode("").unwrap(), b"");
}

#[test]
fn base64_decode_invalid_char() {
    assert!(DataEncoding::Base64.decode("@@@").is_err());
}

#[test]
fn base64_roundtrip() {
    let data = b"Hello, World!";
    let b64 = DataEncoding::Base64.encode(data);
    assert_eq!(DataEncoding::Base64.decode(&b64).unwrap(), data);
}

#[test]
fn base64_single_byte() {
    let data = b"\x01";
    let b64 = DataEncoding::Base64.encode(data);
    assert_eq!(DataEncoding::Base64.decode(&b64).unwrap(), data);
}

#[test]
fn base64_two_bytes() {
    let data = b"\x01\x02";
    let b64 = DataEncoding::Base64.encode(data);
    assert_eq!(DataEncoding::Base64.decode(&b64).unwrap(), data);
}

#[test]
fn all_encodings_roundtrip_binary() {
    let data: Vec<u8> = (0..=255).collect();
    for enc in [DataEncoding::Hex, DataEncoding::Base64] {
        let encoded = enc.encode(&data);
        assert_eq!(enc.decode(&encoded).unwrap(), data, "failed for {:?}", enc);
    }
}

#[test]
fn hex_error_messages_name_the_problem() {
    assert_eq!(DataEncoding::Hex.decode("ABC").unwrap_err().0, "hex string must have even length");
    assert_eq!(DataEncoding::Hex.decode("00ZZ").unwrap_err().0, "invalid hex at position 2");
}

#[test]
fn hex_encode_exact_value() {
    assert_eq!(DataEncoding::Hex.encode(&[0x00, 0xAB, 0x7F]), "00ab7f");
}

#[test]
fn base64_encode_exact_value() {
    assert_eq!(DataEncoding::Base64.encode(b"Hello"), "SGVsbG8=");
    assert_eq!(DataEncoding::Base64.encode(b"\x01\x02\x03"), "AQID");
}

#[test]
fn parse_encoding_unknown_message() {
    assert_eq!(parse_encoding("rot13").unwrap_err().0, "unknown encoding: rot13");
    assert_eq!(parse_encoding("hex").unwrap(), DataEncoding::Hex);
}

#[test]
fn tx_bytes_of_non_numbers() {
    assert_eq!(tx_bytes(&OmiValue::Bool(true), DataEncoding::String).unwrap().unwrap(), b"1".to_vec());
    assert_eq!(tx_bytes(&OmiValue::Bool(false), DataEncoding::Hex).unwrap().unwrap(), b"0".to_vec());
    assert!(tx_bytes(&OmiValue::Null, DataEncoding::Base64).unwrap().unwrap().is_empty());
    assert_eq!(tx_bytes(&OmiValue::Str("4869".into()), DataEncoding::Hex).unwrap().unwrap(), b"Hi".to_vec());
    assert_eq!(tx_bytes(&OmiValue::Str("AQID".into()), DataEncoding::Base64).unwrap().unwrap(), vec![1, 2, 3]);
    assert!(tx_bytes(&OmiValue::Str("zz".into()), DataEncoding::Hex).unwrap().is_err());
    assert!(tx_bytes(&OmiValue::Number(5.0f64.to_bits()), DataEncoding::String).is_none());
}
