//! Error types for the lite JSON lexer and parser, and their conversion to
//! OMI message parse errors.

use vstd::prelude::*;
use crate::text::{self, push_str, push_char};

verus! {

/// Position information for error reporting.
#[derive(Debug, Clone, Copy, PartialEq, Eq, Structural)]
pub struct Pos {
    /// Byte offset in the input.
    pub offset: usize,
}

/// The decimal digits of a number as text.
pub open spec fn num_text(n: nat) -> Seq<char> {
    text::ascii_chars(text::decimal_digits(n))
}

/// How a position reads: `byte <offset>`.
pub open spec fn pos_text(p: Pos) -> Seq<char> {
    "byte "@ + num_text(p.offset as nat)
}

impl Pos {
    pub fn new(offset: usize) -> (r: Self)
        ensures
            r.offset == offset,
    {
        Pos { offset }
    }

    /// The position as text, `byte <offset>`.
    pub fn to_string(&self) -> (r: String)
        ensures
            r@ == pos_text(*self),
    {
        let mut s = String::new();
        push_str(&mut s, "byte ");
        let n = text::decimal_string(self.offset as u64);
        push_str(&mut s, n.as_str());
        s
    }
}

/// Error type for the lite JSON lexer and parser.
#[derive(Debug, PartialEq)]
pub enum LiteParseError {
    /// Encountered an unexpected byte.
    UnexpectedChar { ch: u8, pos: Pos },
    /// Reached end of input unexpectedly.
    UnexpectedEof { pos: Pos },
    /// Invalid escape sequence in a string.
    InvalidEscape { pos: Pos },
    /// Invalid `\uXXXX` unicode escape.
    InvalidUnicodeEscape { pos: Pos },
    /// Invalid surrogate pair (lone surrogate or bad low surrogate).
    InvalidSurrogatePair { pos: Pos },
    /// Unterminated string literal.
    UnterminatedString { pos: Pos },
    /// Malformed number.
    InvalidNumber { pos: Pos },
    /// Invalid literal (expected `true`, `false`, or `null`).
    InvalidLiteral { pos: Pos },
    /// Expected a specific token but found something else.
    ExpectedToken { expected: &'static str, pos: Pos },
    /// A required field was missing from a JSON object.
    MissingField { field: &'static str, pos: Pos },
    /// Object/array nesting exceeds the configured limit.
    DepthExceeded { max: usize, pos: Pos },
    /// Valid JSON followed by unexpected trailing data.
    TrailingData { pos: Pos },
}

/// The position an error carries.
pub open spec fn error_pos(e: LiteParseError) -> Pos {
    match e {
        LiteParseError::UnexpectedChar { pos, .. } => pos,
        LiteParseError::UnexpectedEof { pos } => pos,
        LiteParseError::InvalidEscape { pos } => pos,
        LiteParseError::InvalidUnicodeEscape { pos } => pos,
        LiteParseError::InvalidSurrogatePair { pos } => pos,
        LiteParseError::UnterminatedString { pos } => pos,
        LiteParseError::InvalidNumber { pos } => pos,
        LiteParseError::InvalidLiteral { pos } => pos,
        LiteParseError::ExpectedToken { pos, .. } => pos,
        LiteParseError::MissingField { pos, .. } => pos,
        LiteParseError::DepthExceeded { pos, .. } => pos,
        LiteParseError::TrailingData { pos } => pos,
    }
}

/// The message of an error.
pub open spec fn error_text(e: LiteParseError) -> Seq<char> {
    let at = " at "@ + pos_text(error_pos(e));
    match e {
        LiteParseError::UnexpectedChar { ch, .. } => "unexpected character '"@ + seq![ch as char] + "'"@
            + at,
        LiteParseError::UnexpectedEof { .. } => "unexpected end of input"@ + at,
        LiteParseError::InvalidEscape { .. } => "invalid escape sequence"@ + at,
        LiteParseError::InvalidUnicodeEscape { .. } => "invalid unicode escape"@ + at,
        LiteParseError::InvalidSurrogatePair { .. } => "invalid surrogate pair"@ + at,
        LiteParseError::UnterminatedString { .. } => "unterminated string"@ + at,
        LiteParseError::InvalidNumber { .. } => "invalid number"@ + at,
        LiteParseError::InvalidLiteral { .. } => "invalid literal"@ + at,
        LiteParseError::ExpectedToken { expected, .. } => "expected "@ + expected@ + at,
        LiteParseError::MissingField { field, .. } => "missing required field '"@ + field@ + "'"@
            + at,
        LiteParseError::DepthExceeded { max, .. } => "nesting depth exceeds maximum of "@ + num_text(
            max as nat,
        ) + at,
        LiteParseError::TrailingData { .. } => "trailing data"@ + at,
    }
}

impl LiteParseError {
    /// Returns the byte-offset position of the error.
    pub fn pos(&self) -> (r: Pos)
        ensures
            r == error_pos(*self),
    {
        match self {
            LiteParseError::UnexpectedChar { pos, .. } => *pos,
            LiteParseError::UnexpectedEof { pos } => *pos,
            LiteParseError::InvalidEscape { pos } => *pos,
            LiteParseError::InvalidUnicodeEscape { pos } => *pos,
            LiteParseError::InvalidSurrogatePair { pos } => *pos,
            LiteParseError::UnterminatedString { pos } => *pos,
            LiteParseError::InvalidNumber { pos } => *pos,
            LiteParseError::InvalidLiteral { pos } => *pos,
            LiteParseError::ExpectedToken { pos, .. } => *pos,
            LiteParseError::MissingField { pos, .. } => *pos,
            LiteParseError::DepthExceeded { pos, .. } => *pos,
            LiteParseError::TrailingData { pos } => *pos,
        }
    }

    /// The error message, ending in the position: `... at byte <offset>`.
    pub fn to_string(&self) -> (r: String)
        ensures
            r@ == error_text(*self),
    {
        let mut s = String::new();
        match self {
            LiteParseError::UnexpectedChar { ch, .. } => {
                push_str(&mut s, "unexpected character '");
                push_char(&mut s, *ch as char);
                push_str(&mut s, "'");
            },
            LiteParseError::UnexpectedEof { .. } => push_str(&mut s, "unexpected end of input"),
            LiteParseError::InvalidEscape { .. } => push_str(&mut s, "invalid escape sequence"),
            LiteParseError::InvalidUnicodeEscape { .. } => push_str(&mut s, "invalid unicode escape"),
            LiteParseError::InvalidSurrogatePair { .. } => push_str(&mut s, "invalid surrogate pair"),
            LiteParseError::UnterminatedString { .. } => push_str(&mut s, "unterminated string"),
            LiteParseError::InvalidNumber { .. } => push_str(&mut s, "invalid number"),
            LiteParseError::InvalidLiteral { .. } => push_str(&mut s, "invalid literal"),
            LiteParseError::ExpectedToken { expected, .. } => {
                push_str(&mut s, "expected ");
                push_str(&mut s, expected);
            },
            LiteParseError::MissingField { field, .. } => {
                push_str(&mut s, "missing required field '");
                push_str(&mut s, field);
                push_str(&mut s, "'");
            },
            LiteParseError::DepthExceeded { max, .. } => {
                push_str(&mut s, "nesting depth exceeds maximum of ");
                let n = text::decimal_string(*max as u64);
                push_str(&mut s, n.as_str());
            },
            LiteParseError::TrailingData { .. } => push_str(&mut s, "trailing data"),
        }
        push_str(&mut s, " at ");
        let p = self.pos().to_string();
        push_str(&mut s, p.as_str());
        s
    }
}

/// Error from parsing an OMI message.
#[derive(Debug, PartialEq)]
pub enum ParseError {
    /// A required field is absent.
    MissingField(&'static str),
    /// The `omi` version is not one this device speaks.
    UnsupportedVersion(String),
    /// The message does not hold exactly one operation.
    InvalidOperationCount(usize),
    /// The text is not valid JSON.
    InvalidJson(String),
    /// Two fields that exclude each other are both present.
    MutuallyExclusive(&'static str, &'static str),
    /// A field holds a value it may not hold.
    InvalidField { field: &'static str, reason: String },
}

/// `p` is what a lite JSON error becomes at the OMI level: a missing field
/// stays a missing field, everything else is invalid JSON with the message.
pub open spec fn converts_to(e: LiteParseError, p: ParseError) -> bool {
    match e {
        LiteParseError::MissingField { field, .. } => p == ParseError::MissingField(field),
        _ => (p matches ParseError::InvalidJson(s) && s@ == error_text(e)),
    }
}

impl From<LiteParseError> for ParseError {
    fn from(e: LiteParseError) -> (r: Self)
        ensures
            converts_to(e, r),
    {
        match e {
            LiteParseError::MissingField { field, .. } => ParseError::MissingField(field),
            other => ParseError::InvalidJson(other.to_string()),
        }
    }
}

impl vstd::std_specs::convert::FromSpecImpl<LiteParseError> for ParseError {
    open spec fn obeys_from_spec() -> bool {
        false
    }

    open spec fn from_spec(v: LiteParseError) -> Self {
        choose|p: ParseError| converts_to(v, p)
    }
}


/// The model of a [`ParseError`]: texts as characters.
pub enum ParseErrorView {
    MissingField(&'static str),
    UnsupportedVersion(Seq<char>),
    InvalidOperationCount(usize),
    InvalidJson(Seq<char>),
    MutuallyExclusive(&'static str, &'static str),
    InvalidField { field: &'static str, reason: Seq<char> },
}

impl View for ParseError {
    type V = ParseErrorView;

    open spec fn view(&self) -> ParseErrorView {
        match self {
            ParseError::MissingField(f) => ParseErrorView::MissingField(*f),
            ParseError::UnsupportedVersion(v) => ParseErrorView::UnsupportedVersion(v@),
            ParseError::InvalidOperationCount(n) => ParseErrorView::InvalidOperationCount(*n),
            ParseError::InvalidJson(m) => ParseErrorView::InvalidJson(m@),
            ParseError::MutuallyExclusive(a, b) => ParseErrorView::MutuallyExclusive(*a, *b),
            ParseError::InvalidField { field, reason } => ParseErrorView::InvalidField {
                field: *field,
                reason: reason@,
            },
        }
    }
}

/// What a lite JSON error met inside an O-MI message becomes: invalid JSON
/// with the error's message.
pub open spec fn lite_to_omi(e: LiteParseError) -> ParseErrorView {
    ParseErrorView::InvalidJson(error_text(e))
}

/// A lite JSON error as an O-MI parse error (invalid JSON with its message).
pub fn lpe(e: LiteParseError) -> (r: ParseError)
    ensures
        r@ == lite_to_omi(e),
{
    ParseError::InvalidJson(e.to_string())
}

} // verus!
