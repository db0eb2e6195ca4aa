use eomi_core::json::error::{LiteParseError, Pos};
use eomi_core::json::lexer::{Lexer, Token};

/// Lex all tokens from the input.
fn lex_all(input: &[u8]) -> Result<Vec<Token>, LiteParseError> {
    let mut lexer = Lexer::new(input);
    let mut tokens = Vec::new();
    while let Some(tok) = lexer.next_token()? {
        tokens.push(tok);
    }
    Ok(tokens)
}

#[test]
fn empty_input() {
    let tokens = lex_all(b"").unwrap();
    assert!(tokens.is_empty());
}

#[test]
fn whitespace_only() {
    let tokens = lex_all(b"  \t\n\r  ").unwrap();
    assert!(tokens.is_empty());
}

#[test]
fn structural_tokens() {
    let tokens = lex_all(b"{}[]:,").unwrap();
    assert_eq!(
        tokens,
        vec![
            Token::ObjectStart,
            Token::ObjectEnd,
            Token::ArrayStart,
            Token::ArrayEnd,
            Token::Colon,
            Token::Comma,
        ]
    );
}

#[test]
fn structural_with_whitespace() {
    let tokens = lex_all(b" { } [ ] : , ").unwrap();
    assert_eq!(
        tokens,
        vec![
            Token::ObjectStart,
            Token::ObjectEnd,
            Token::ArrayStart,
            Token::ArrayEnd,
            Token::Colon,
            Token::Comma,
        ]
    );
}

#[test]
fn simple_string() {
    let tokens = lex_all(b"\"hello\"").unwrap();
    assert_eq!(tokens, vec![Token::String("hello".into())]);
}

#[test]
fn empty_string() {
    let tokens = lex_all(b"\"\"").unwrap();
    assert_eq!(tokens, vec![Token::String(String::new())]);
}

#[test]
fn string_with_basic_escapes() {
    let tokens = lex_all(br#""a\"b\\c\/d""#).unwrap();
    assert_eq!(tokens, vec![Token::String("a\"b\\c/d".into())]);
}

#[test]
fn string_with_control_escapes() {
    let tokens = lex_all(br#""\b\f\n\r\t""#).unwrap();
    assert_eq!(
        tokens,
        vec![Token::String("\x08\x0C\n\r\t".into())]
    );
}

#[test]
fn string_with_unicode_escape() {
    // \u0041 = 'A'
    let tokens = lex_all(br#""\u0041""#).unwrap();
    assert_eq!(tokens, vec![Token::String("A".into())]);
}

#[test]
fn string_unicode_escape_lowercase() {
    let tokens = lex_all(br#""\u00e9""#).unwrap();
    assert_eq!(tokens, vec![Token::String("é".into())]);
}

#[test]
fn string_unicode_escape_uppercase() {
    let tokens = lex_all(br#""\u00E9""#).unwrap();
    assert_eq!(tokens, vec![Token::String("é".into())]);
}

#[test]
fn string_surrogate_pair() {
    // U+1F600 (grinning face) = \uD83D\uDE00
    let tokens = lex_all(br#""\uD83D\uDE00""#).unwrap();
    assert_eq!(tokens, vec![Token::String("😀".into())]);
}

#[test]
fn string_surrogate_pair_musical_symbol() {
    // U+1D11E (musical symbol G clef) = \uD834\uDD1E
    let tokens = lex_all(br#""\uD834\uDD1E""#).unwrap();
    assert_eq!(tokens, vec![Token::String("𝄞".into())]);
}

#[test]
fn string_utf8_passthrough() {
    let tokens = lex_all("\"héllo 日本語\"".as_bytes()).unwrap();
    assert_eq!(tokens, vec![Token::String("héllo 日本語".into())]);
}

#[test]
fn string_unterminated() {
    let err = lex_all(b"\"hello").unwrap_err();
    assert!(matches!(err, LiteParseError::UnterminatedString { .. }));
}

#[test]
fn string_invalid_escape() {
    let err = lex_all(br#""\x""#).unwrap_err();
    assert!(matches!(err, LiteParseError::InvalidEscape { .. }));
}

#[test]
fn string_invalid_unicode_short() {
    let err = lex_all(br#""\u00""#).unwrap_err();
    assert!(matches!(err, LiteParseError::InvalidUnicodeEscape { .. }));
}

#[test]
fn string_invalid_unicode_bad_hex() {
    let err = lex_all(br#""\u00GG""#).unwrap_err();
    assert!(matches!(err, LiteParseError::InvalidUnicodeEscape { .. }));
}

#[test]
fn string_lone_high_surrogate() {
    let err = lex_all(br#""\uD800""#).unwrap_err();
    assert!(matches!(err, LiteParseError::InvalidSurrogatePair { .. }));
}

#[test]
fn string_lone_low_surrogate() {
    let err = lex_all(br#""\uDC00""#).unwrap_err();
    assert!(matches!(err, LiteParseError::InvalidSurrogatePair { .. }));
}

#[test]
fn string_high_surrogate_without_low() {
    // High surrogate followed by non-surrogate \u escape
    let err = lex_all(br#""\uD800\u0041""#).unwrap_err();
    assert!(matches!(err, LiteParseError::InvalidSurrogatePair { .. }));
}

#[test]
fn string_unescaped_control_char() {
    let err = lex_all(b"\"\x01\"").unwrap_err();
    assert!(matches!(err, LiteParseError::UnexpectedChar { .. }));
}

#[test]
fn bool_true() {
    let tokens = lex_all(b"true").unwrap();
    assert_eq!(tokens, vec![Token::Bool(true)]);
}

#[test]
fn bool_false() {
    let tokens = lex_all(b"false").unwrap();
    assert_eq!(tokens, vec![Token::Bool(false)]);
}

#[test]
fn bool_invalid_truncated() {
    let err = lex_all(b"tru").unwrap_err();
    assert!(matches!(err, LiteParseError::InvalidLiteral { .. }));
}

#[test]
fn bool_invalid_misspelled() {
    let err = lex_all(b"falze").unwrap_err();
    assert!(matches!(err, LiteParseError::InvalidLiteral { .. }));
}

#[test]
fn null_literal() {
    let tokens = lex_all(b"null").unwrap();
    assert_eq!(tokens, vec![Token::Null]);
}

#[test]
fn null_truncated() {
    let err = lex_all(b"nul").unwrap_err();
    assert!(matches!(err, LiteParseError::InvalidLiteral { .. }));
}

#[test]
fn integer_zero() {
    let tokens = lex_all(b"0").unwrap();
    assert_eq!(tokens, vec![Token::Integer(0)]);
}

#[test]
fn integer_positive() {
    let tokens = lex_all(b"42").unwrap();
    assert_eq!(tokens, vec![Token::Integer(42)]);
}

#[test]
fn integer_negative() {
    let tokens = lex_all(b"-1").unwrap();
    assert_eq!(tokens, vec![Token::Integer(-1)]);
}

#[test]
fn integer_large() {
    let tokens = lex_all(b"9223372036854775807").unwrap(); // i64::MAX
    assert_eq!(tokens, vec![Token::Integer(i64::MAX)]);
}

#[test]
fn integer_min() {
    let tokens = lex_all(b"-9223372036854775808").unwrap(); // i64::MIN
    assert_eq!(tokens, vec![Token::Integer(i64::MIN)]);
}

#[test]
fn number_leading_zero_rejected() {
    let err = lex_all(b"01").unwrap_err();
    assert!(matches!(err, LiteParseError::InvalidNumber { .. }));
}

#[test]
fn number_negative_zero() {
    let tokens = lex_all(b"-0").unwrap();
    assert_eq!(tokens, vec![Token::Integer(0)]);
}

#[test]
fn number_trailing_dot_rejected() {
    let err = lex_all(b"1.").unwrap_err();
    assert!(matches!(err, LiteParseError::InvalidNumber { .. }));
}

#[test]
fn number_trailing_e_rejected() {
    let err = lex_all(b"1e").unwrap_err();
    assert!(matches!(err, LiteParseError::InvalidNumber { .. }));
}

#[test]
fn number_bare_minus_rejected() {
    let err = lex_all(b"-").unwrap_err();
    assert!(matches!(err, LiteParseError::InvalidNumber { .. }));
}

#[test]
fn simple_object() {
    let tokens = lex_all(br#"{"key": "value"}"#).unwrap();
    assert_eq!(
        tokens,
        vec![
            Token::ObjectStart,
            Token::String("key".into()),
            Token::Colon,
            Token::String("value".into()),
            Token::ObjectEnd,
        ]
    );
}

#[test]
fn simple_array() {
    let tokens = lex_all(b"[1, 2, 3]").unwrap();
    assert_eq!(
        tokens,
        vec![
            Token::ArrayStart,
            Token::Integer(1),
            Token::Comma,
            Token::Integer(2),
            Token::Comma,
            Token::Integer(3),
            Token::ArrayEnd,
        ]
    );
}

#[test]
fn omi_envelope() {
    let input = br#"{"omi":"1.0","ttl":0,"read":{"path":"/A/B"}}"#;
    let tokens = lex_all(input).unwrap();
    assert_eq!(tokens[0], Token::ObjectStart);
    assert_eq!(tokens[1], Token::String("omi".into()));
    assert_eq!(tokens[2], Token::Colon);
    assert_eq!(tokens[3], Token::String("1.0".into()));
    assert_eq!(tokens[4], Token::Comma);
    assert_eq!(tokens[5], Token::String("ttl".into()));
    assert_eq!(tokens[6], Token::Colon);
    assert_eq!(tokens[7], Token::Integer(0));
}

#[test]
fn peek_does_not_consume() {
    let mut lexer = Lexer::new(b"42");
    let peek = lexer.peek_token().unwrap().cloned();
    assert_eq!(peek, Some(Token::Integer(42)));
    let next = lexer.next_token().unwrap();
    assert_eq!(next, Some(Token::Integer(42)));
    assert!(lexer.next_token().unwrap().is_none());
}

#[test]
fn peek_multiple_times() {
    let mut lexer = Lexer::new(b"true");
    let p1 = lexer.peek_token().unwrap().cloned();
    let p2 = lexer.peek_token().unwrap().cloned();
    assert_eq!(p1, p2);
}

#[test]
fn expect_token_success() {
    let mut lexer = Lexer::new(b"{}");
    let tok = lexer.expect_token(&Token::ObjectStart).unwrap();
    assert_eq!(tok, Token::ObjectStart);
    let tok = lexer.expect_token(&Token::ObjectEnd).unwrap();
    assert_eq!(tok, Token::ObjectEnd);
}

#[test]
fn expect_token_wrong_type() {
    let mut lexer = Lexer::new(b"[");
    let err = lexer.expect_token(&Token::ObjectStart).unwrap_err();
    assert!(matches!(err, LiteParseError::ExpectedToken { .. }));
}

#[test]
fn expect_token_eof() {
    let mut lexer = Lexer::new(b"");
    let err = lexer.expect_token(&Token::ObjectStart).unwrap_err();
    assert!(matches!(err, LiteParseError::UnexpectedEof { .. }));
}

#[test]
fn error_position_tracking() {
    let err = lex_all(b"  @").unwrap_err();
    match err {
        LiteParseError::UnexpectedChar { pos, ch } => {
            assert_eq!(pos, Pos::new(2));
            assert_eq!(ch, b'@');
        }
        _ => panic!("expected UnexpectedChar"),
    }
}

#[test]
fn position_after_tokens() {
    let mut lexer = Lexer::new(b"[42]");
    lexer.next_token().unwrap(); // [
    assert_eq!(lexer.position(), 1);
    lexer.next_token().unwrap(); // 42
    assert_eq!(lexer.position(), 3);
    lexer.next_token().unwrap(); // ]
    assert_eq!(lexer.position(), 4);
}

#[test]
fn is_eof_empty() {
    let mut lexer = Lexer::new(b"");
    assert!(lexer.is_eof());
}

#[test]
fn is_eof_after_all_consumed() {
    let mut lexer = Lexer::new(b"42");
    assert!(!lexer.is_eof());
    lexer.next_token().unwrap();
    assert!(lexer.is_eof());
}

#[test]
fn is_eof_trailing_whitespace() {
    let mut lexer = Lexer::new(b"42  ");
    lexer.next_token().unwrap();
    assert!(lexer.is_eof());
}

#[test]
fn is_eof_with_peeked_token() {
    let mut lexer = Lexer::new(b"42");
    lexer.peek_token().unwrap();
    assert!(!lexer.is_eof());
}

#[test]
fn all_whitespace_types() {
    let tokens = lex_all(b" \t\n\r42 \t\n\r").unwrap();
    assert_eq!(tokens, vec![Token::Integer(42)]);
}

#[test]
fn unexpected_at_sign() {
    let err = lex_all(b"@").unwrap_err();
    assert!(matches!(
        err,
        LiteParseError::UnexpectedChar { ch: b'@', .. }
    ));
}

#[test]
fn unexpected_after_valid() {
    let err = lex_all(b"42 @").unwrap_err();
    assert!(matches!(
        err,
        LiteParseError::UnexpectedChar { ch: b'@', .. }
    ));
}

#[test]
fn number_literal_text_kept() {
    let tokens = lex_all(b"1.5 -2e10 3.25E-2").unwrap();
    assert_eq!(
        tokens,
        vec![
            Token::Number("1.5".into()),
            Token::Number("-2e10".into()),
            Token::Number("3.25E-2".into()),
        ]
    );
}

#[test]
fn integer_beyond_i64_kept_as_text() {
    let tokens = lex_all(b"9223372036854775808 -9223372036854775809").unwrap();
    assert_eq!(
        tokens,
        vec![
            Token::Number("9223372036854775808".into()),
            Token::Number("-9223372036854775809".into()),
        ]
    );
}

#[test]
fn integer_bounds_exact() {
    let tokens = lex_all(b"9223372036854775807 -9223372036854775808 -0").unwrap();
    assert_eq!(tokens, vec![Token::Integer(i64::MAX), Token::Integer(i64::MIN), Token::Integer(0)]);
}

#[test]
fn string_error_positions() {
    assert_eq!(
        lex_all(b"  \"ab").unwrap_err(),
        LiteParseError::UnterminatedString { pos: Pos::new(2) }
    );
    assert_eq!(
        lex_all(b"\"a\\x\"").unwrap_err(),
        LiteParseError::InvalidEscape { pos: Pos::new(3) }
    );
    assert_eq!(
        lex_all(b"\"\\uDC00\"").unwrap_err(),
        LiteParseError::InvalidSurrogatePair { pos: Pos::new(2) }
    );
}

#[test]
fn invalid_utf8_in_string_rejected() {
    assert_eq!(
        lex_all(b"\"\xC3\x28\"").unwrap_err(),
        LiteParseError::UnexpectedChar { ch: 0xC3, pos: Pos::new(1) }
    );
}

#[test]
fn peek_then_expect() {
    let mut lexer = Lexer::new(b"[1]");
    assert_eq!(lexer.peek_token().unwrap(), Some(&Token::ArrayStart));
    assert_eq!(lexer.expect_token(&Token::ArrayStart).unwrap(), Token::ArrayStart);
    assert_eq!(lexer.expect_token(&Token::Integer(0)).unwrap(), Token::Integer(1));
    assert_eq!(
        lexer.expect_token(&Token::Comma).unwrap_err(),
        LiteParseError::ExpectedToken { expected: "','", pos: Pos::new(3) }
    );
}

/// The one number token of `input`: its literal text, read as a double.
fn single_number(input: &[u8]) -> f64 {
    let tokens = lex_all(input).unwrap();
    assert_eq!(tokens.len(), 1);
    match &tokens[0] {
        Token::Number(t) => {
            assert_eq!(t.as_bytes(), input);
            t.parse::<f64>().unwrap()
        }
        other => panic!("expected a number, got {:?}", other),
    }
}

#[test]
fn integer_overflow_to_f64() {
    // i64::MAX + 1 is kept as number text
    let tokens = lex_all(b"9223372036854775808").unwrap();
    assert!(matches!(tokens[0], Token::Number(_)));
}

#[test]
fn float_simple() {
    assert_eq!(single_number(b"3.14"), 3.14);
}

#[test]
fn float_negative() {
    assert_eq!(single_number(b"-0.5"), -0.5);
}

#[test]
fn float_with_exponent() {
    assert_eq!(single_number(b"1e10"), 1e10);
}

#[test]
fn float_with_positive_exponent() {
    assert_eq!(single_number(b"1E+3"), 1e3);
}

#[test]
fn float_with_negative_exponent() {
    assert_eq!(single_number(b"1e-2"), 0.01);
}

#[test]
fn float_full_form() {
    assert_eq!(single_number(b"-3.14e+2"), -314.0);
}
