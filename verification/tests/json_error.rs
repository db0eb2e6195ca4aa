use eomi_core::json::error::{LiteParseError, ParseError, Pos};

#[test]
fn unexpected_char_display() {
    let e = LiteParseError::UnexpectedChar { ch: b'x', pos: Pos::new(5) };
    assert_eq!(e.to_string(), "unexpected character 'x' at byte 5");
}

#[test]
fn unexpected_eof_display() {
    let e = LiteParseError::UnexpectedEof { pos: Pos::new(10) };
    assert_eq!(e.to_string(), "unexpected end of input at byte 10");
}

#[test]
fn invalid_escape_display() {
    let e = LiteParseError::InvalidEscape { pos: Pos::new(3) };
    assert_eq!(e.to_string(), "invalid escape sequence at byte 3");
}

#[test]
fn invalid_unicode_escape_display() {
    let e = LiteParseError::InvalidUnicodeEscape { pos: Pos::new(7) };
    assert_eq!(e.to_string(), "invalid unicode escape at byte 7");
}

#[test]
fn invalid_surrogate_pair_display() {
    let e = LiteParseError::InvalidSurrogatePair { pos: Pos::new(2) };
    assert_eq!(e.to_string(), "invalid surrogate pair at byte 2");
}

#[test]
fn unterminated_string_display() {
    let e = LiteParseError::UnterminatedString { pos: Pos::new(0) };
    assert_eq!(e.to_string(), "unterminated string at byte 0");
}

#[test]
fn invalid_number_display() {
    let e = LiteParseError::InvalidNumber { pos: Pos::new(15) };
    assert_eq!(e.to_string(), "invalid number at byte 15");
}

#[test]
fn invalid_literal_display() {
    let e = LiteParseError::InvalidLiteral { pos: Pos::new(8) };
    assert_eq!(e.to_string(), "invalid literal at byte 8");
}

#[test]
fn expected_token_display() {
    let e = LiteParseError::ExpectedToken { expected: "':'", pos: Pos::new(4) };
    assert_eq!(e.to_string(), "expected ':' at byte 4");
}

#[test]
fn pos_accessor() {
    let e = LiteParseError::UnexpectedChar { ch: b'!', pos: Pos::new(42) };
    assert_eq!(e.pos(), Pos::new(42));
}

#[test]
fn display_formats_are_parseable() {
    // Verify all variants produce non-empty display strings
    let variants: Vec<LiteParseError> = vec![
        LiteParseError::UnexpectedChar { ch: b'?', pos: Pos::new(0) },
        LiteParseError::UnexpectedEof { pos: Pos::new(0) },
        LiteParseError::InvalidEscape { pos: Pos::new(0) },
        LiteParseError::InvalidUnicodeEscape { pos: Pos::new(0) },
        LiteParseError::InvalidSurrogatePair { pos: Pos::new(0) },
        LiteParseError::UnterminatedString { pos: Pos::new(0) },
        LiteParseError::InvalidNumber { pos: Pos::new(0) },
        LiteParseError::InvalidLiteral { pos: Pos::new(0) },
        LiteParseError::ExpectedToken { expected: "test", pos: Pos::new(0) },
        LiteParseError::MissingField { field: "id", pos: Pos::new(0) },
        LiteParseError::DepthExceeded { max: 32, pos: Pos::new(0) },
        LiteParseError::TrailingData { pos: Pos::new(0) },
    ];
    for v in &variants {
        let msg = v.to_string();
        assert!(!msg.is_empty());
        assert!(msg.contains("byte 0"));
    }
}

#[test]
fn equality() {
    let a = LiteParseError::UnexpectedEof { pos: Pos::new(5) };
    let b = LiteParseError::UnexpectedEof { pos: Pos::new(5) };
    let c = LiteParseError::UnexpectedEof { pos: Pos::new(6) };
    assert_eq!(a, b);
    assert_ne!(a, c);
}

#[test]
fn missing_field_maps_directly() {
    let e = LiteParseError::MissingField { field: "version", pos: Pos::new(0) };
    let pe: ParseError = e.into();
    assert_eq!(pe, ParseError::MissingField("version"));
}

#[test]
    fn unexpected_char_maps_to_invalid_json() {
        let e = LiteParseError::UnexpectedChar { ch: b'{', pos: Pos::new(3) };
        let pe: ParseError = e.into();
        assert!(matches!(pe, ParseError::InvalidJson(ref s) if s.contains("unexpected character")));
    }

#[test]
    fn unexpected_eof_maps_to_invalid_json() {
        let e = LiteParseError::UnexpectedEof { pos: Pos::new(10) };
        let pe: ParseError = e.into();
        assert!(matches!(pe, ParseError::InvalidJson(_)));
    }

#[test]
    fn invalid_escape_maps_to_invalid_json() {
        let e = LiteParseError::InvalidEscape { pos: Pos::new(1) };
        let pe: ParseError = e.into();
        assert!(matches!(pe, ParseError::InvalidJson(_)));
    }

#[test]
    fn invalid_unicode_escape_maps_to_invalid_json() {
        let e = LiteParseError::InvalidUnicodeEscape { pos: Pos::new(4) };
        let pe: ParseError = e.into();
        assert!(matches!(pe, ParseError::InvalidJson(_)));
    }

#[test]
    fn invalid_surrogate_pair_maps_to_invalid_json() {
        let e = LiteParseError::InvalidSurrogatePair { pos: Pos::new(6) };
        let pe: ParseError = e.into();
        assert!(matches!(pe, ParseError::InvalidJson(_)));
    }

#[test]
    fn unterminated_string_maps_to_invalid_json() {
        let e = LiteParseError::UnterminatedString { pos: Pos::new(0) };
        let pe: ParseError = e.into();
        assert!(matches!(pe, ParseError::InvalidJson(_)));
    }

#[test]
    fn invalid_number_maps_to_invalid_json() {
        let e = LiteParseError::InvalidNumber { pos: Pos::new(2) };
        let pe: ParseError = e.into();
        assert!(matches!(pe, ParseError::InvalidJson(_)));
    }

#[test]
    fn invalid_literal_maps_to_invalid_json() {
        let e = LiteParseError::InvalidLiteral { pos: Pos::new(0) };
        let pe: ParseError = e.into();
        assert!(matches!(pe, ParseError::InvalidJson(_)));
    }

#[test]
    fn expected_token_maps_to_invalid_json() {
        let e = LiteParseError::ExpectedToken { expected: "':'", pos: Pos::new(5) };
        let pe: ParseError = e.into();
        assert!(matches!(pe, ParseError::InvalidJson(_)));
    }

#[test]
    fn depth_exceeded_maps_to_invalid_json() {
        let e = LiteParseError::DepthExceeded { max: 32, pos: Pos::new(0) };
        let pe: ParseError = e.into();
        assert!(matches!(pe, ParseError::InvalidJson(_)));
    }

#[test]
    fn trailing_data_maps_to_invalid_json() {
        let e = LiteParseError::TrailingData { pos: Pos::new(100) };
        let pe: ParseError = e.into();
        assert!(matches!(pe, ParseError::InvalidJson(_)));
    }
