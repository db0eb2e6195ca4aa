use eomi_core::json::error::{LiteParseError, Pos};
use eomi_core::json::lexer::Token;
use eomi_core::json::parser::{JsonParser, MAX_DEPTH};

#[test]
fn skip_scalar_values() {
    for input in [&b"\"text\""[..], b"42", b"-1.5e3", b"true", b"false", b"null"] {
        let mut p = JsonParser::new(input);
        p.skip_value().unwrap();
        assert!(p.is_eof());
    }
}

#[test]
fn skip_nested_structure_stops_after_value() {
    let mut p = JsonParser::new(b" {\"a\": [1, {\"b\": null}, []], \"c\": {}} 7");
    p.skip_value().unwrap();
    assert_eq!(p.position(), 37);
    assert!(!p.is_eof());
    p.skip_value().unwrap();
    assert!(p.is_eof());
}

#[test]
fn skip_empty_containers() {
    let mut p = JsonParser::new(b"{} []");
    p.skip_value().unwrap();
    p.skip_value().unwrap();
    assert!(p.is_eof());
}

#[test]
fn skip_depth_limit() {
    let ok = "[".repeat(MAX_DEPTH) + &"]".repeat(MAX_DEPTH);
    let mut p = JsonParser::new(ok.as_bytes());
    p.skip_value().unwrap();
    let deep = "[".repeat(MAX_DEPTH + 1) + &"]".repeat(MAX_DEPTH + 1);
    let mut p = JsonParser::new(deep.as_bytes());
    assert_eq!(
        p.skip_value().unwrap_err(),
        LiteParseError::DepthExceeded { max: MAX_DEPTH, pos: Pos::new(MAX_DEPTH + 1) }
    );
}

#[test]
fn skip_errors() {
    let mut p = JsonParser::new(b"{\"a\" 1}");
    assert_eq!(p.skip_value().unwrap_err(), LiteParseError::ExpectedToken { expected: "':'", pos: Pos::new(6) });
    let mut p = JsonParser::new(b"{1: 2}");
    assert_eq!(p.skip_value().unwrap_err(), LiteParseError::ExpectedToken { expected: "string", pos: Pos::new(2) });
    let mut p = JsonParser::new(b"[1 2]");
    assert_eq!(p.skip_value().unwrap_err(), LiteParseError::ExpectedToken { expected: "',' or ']'", pos: Pos::new(4) });
    let mut p = JsonParser::new(b"{\"a\": 1 \"b\"}");
    assert_eq!(p.skip_value().unwrap_err(), LiteParseError::ExpectedToken { expected: "',' or '}'", pos: Pos::new(11) });
    let mut p = JsonParser::new(b"]");
    assert_eq!(p.skip_value().unwrap_err(), LiteParseError::ExpectedToken { expected: "value", pos: Pos::new(1) });
    let mut p = JsonParser::new(b"  ");
    assert_eq!(p.skip_value().unwrap_err(), LiteParseError::UnexpectedEof { pos: Pos::new(2) });
    let mut p = JsonParser::new(b"[1,");
    assert_eq!(p.skip_value().unwrap_err(), LiteParseError::UnexpectedEof { pos: Pos::new(3) });
}

#[test]
fn lexer_access_reads_tokens_in_place() {
    let mut p = JsonParser::new(b" {\"a\": 1}");
    assert_eq!(p.lexer().next_token().unwrap(), Some(Token::ObjectStart));
    assert_eq!(p.position(), 2);
    assert_eq!(p.lexer().next_token().unwrap(), Some(Token::String("a".to_string())));
    p.lexer().expect_token(&Token::Colon).unwrap();
    p.skip_value().unwrap();
    assert_eq!(p.lexer().next_token().unwrap(), Some(Token::ObjectEnd));
    assert!(p.is_eof());
}
