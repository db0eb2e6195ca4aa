//! JSON lexer: a byte-level tokenizer that handles every JSON token type,
//! string escapes (with surrogate pairs), whitespace, and byte positions for
//! errors.
//!
//! A number with a fraction or an exponent, or an integer outside `i64`, is
//! kept as the text of its literal.

use vstd::prelude::*;
use vstd::utf8::{decode_utf8, valid_utf8};
use super::error::{LiteParseError, Pos};
use crate::text::{ascii_chars, push_ascii, push_char, push_str, utf8_text};

verus! {

/// A JSON token produced by the lexer.
#[derive(Debug, Clone, PartialEq)]
pub enum Token {
    /// A JSON string value (after escape processing).
    String(String),
    /// An integer number that fits in i64.
    Integer(i64),
    /// Any other number: the text of its literal.
    Number(String),
    /// A boolean value.
    Bool(bool),
    /// The `null` literal.
    Null,
    /// `{`
    ObjectStart,
    /// `}`
    ObjectEnd,
    /// `[`
    ArrayStart,
    /// `]`
    ArrayEnd,
    /// `:`
    Colon,
    /// `,`
    Comma,
}

/// The mathematical model of a [`Token`].
pub enum TokenView {
    String(Seq<char>),
    Integer(i64),
    Number(Seq<char>),
    Bool(bool),
    Null,
    ObjectStart,
    ObjectEnd,
    ArrayStart,
    ArrayEnd,
    Colon,
    Comma,
}

impl View for Token {
    type V = TokenView;

    open spec fn view(&self) -> TokenView {
        match self {
            Token::String(s) => TokenView::String(s@),
            Token::Integer(v) => TokenView::Integer(*v),
            Token::Number(s) => TokenView::Number(s@),
            Token::Bool(b) => TokenView::Bool(*b),
            Token::Null => TokenView::Null,
            Token::ObjectStart => TokenView::ObjectStart,
            Token::ObjectEnd => TokenView::ObjectEnd,
            Token::ArrayStart => TokenView::ArrayStart,
            Token::ArrayEnd => TokenView::ArrayEnd,
            Token::Colon => TokenView::Colon,
            Token::Comma => TokenView::Comma,
        }
    }
}

/// The model of an optional token.
pub open spec fn opt_token_view(o: Option<Token>) -> Option<TokenView> {
    match o {
        Some(t) => Some(t@),
        None => None,
    }
}

/// The error position at byte `p`.
pub open spec fn at_pos(p: int) -> Pos {
    Pos { offset: p as usize }
}

/// JSON whitespace: space, tab, line feed, carriage return.
pub open spec fn is_json_ws(b: u8) -> bool {
    b == 32u8 || b == 9u8 || b == 10u8 || b == 13u8
}

/// The first byte at or after `p` that is not whitespace.
pub open spec fn ws_end(d: Seq<u8>, p: int) -> int
    decreases d.len() - p,
{
    if 0 <= p < d.len() && is_json_ws(d[p]) {
        ws_end(d, p + 1)
    } else {
        p
    }
}

/// An ASCII decimal digit.
pub open spec fn is_digit_byte(b: u8) -> bool {
    48u8 <= b <= 57u8
}

/// The first byte at or after `p` that is not a digit.
pub open spec fn digits_end(d: Seq<u8>, p: int) -> int
    decreases d.len() - p,
{
    if 0 <= p < d.len() && is_digit_byte(d[p]) {
        digits_end(d, p + 1)
    } else {
        p
    }
}

/// The character of a one-letter escape (`\" \\ \/ \b \f \n \r \t`).
pub open spec fn simple_escape(b: u8) -> Option<char> {
    if b == 34u8 {
        Some('"')
    } else if b == 92u8 {
        Some('\\')
    } else if b == 47u8 {
        Some('/')
    } else if b == 98u8 {
        Some('\x08')
    } else if b == 102u8 {
        Some('\x0C')
    } else if b == 110u8 {
        Some('\n')
    } else if b == 114u8 {
        Some('\r')
    } else if b == 116u8 {
        Some('\t')
    } else {
        None
    }
}

/// The value of a hexadecimal digit (either case).
pub open spec fn hex_val(b: u8) -> Option<u32> {
    if 48u8 <= b <= 57u8 {
        Some((b - 48) as u32)
    } else if 97u8 <= b <= 102u8 {
        Some((b - 87) as u32)
    } else if 65u8 <= b <= 70u8 {
        Some((b - 55) as u32)
    } else {
        None
    }
}

/// The value of the four hexadecimal digits at `p`.
pub open spec fn hex4_at(d: Seq<u8>, p: int) -> Option<u32> {
    if p < 0 || p + 4 > d.len() {
        None
    } else {
        match (hex_val(d[p]), hex_val(d[p + 1]), hex_val(d[p + 2]), hex_val(d[p + 3])) {
            (Some(a), Some(b), Some(c), Some(e)) => Some((a * 4096 + b * 256 + c * 16 + e) as u32),
            _ => None,
        }
    }
}

/// The escape after a backslash at `p - 1` in the string opened at `start`:
/// the character it stands for and the position after it.
pub open spec fn escape_at(d: Seq<u8>, start: int, p: int) -> Result<(char, int), LiteParseError> {
    if p < 0 || p >= d.len() {
        Err(LiteParseError::UnterminatedString { pos: at_pos(start) })
    } else {
        let b = d[p];
        let ep = at_pos(p);
        match simple_escape(b) {
            Some(c) => Ok((c, p + 1)),
            None => if b != 117u8 {
                Err(LiteParseError::InvalidEscape { pos: ep })
            } else {
                match hex4_at(d, p + 1) {
                    None => Err(LiteParseError::InvalidUnicodeEscape { pos: ep }),
                    Some(cp) => if 0xD800 <= cp <= 0xDBFF {
                        let q = p + 5;
                        if q + 1 < d.len() && d[q] == 92u8 && d[q + 1] == 117u8 {
                            match hex4_at(d, q + 2) {
                                None => Err(LiteParseError::InvalidUnicodeEscape { pos: ep }),
                                Some(low) => if 0xDC00 <= low <= 0xDFFF {
                                    Ok(
                                        (
                                            ((0x10000 + (cp - 0xD800) * 1024 + (low - 0xDC00)) as u32)
                                                as char,
                                            q + 6,
                                        ),
                                    )
                                } else {
                                    Err(LiteParseError::InvalidSurrogatePair { pos: ep })
                                },
                            }
                        } else {
                            Err(LiteParseError::InvalidSurrogatePair { pos: ep })
                        }
                    } else if 0xDC00 <= cp <= 0xDFFF {
                        Err(LiteParseError::InvalidSurrogatePair { pos: ep })
                    } else {
                        Ok((cp as char, p + 5))
                    },
                }
            },
        }
    }
}

/// The byte length of a UTF-8 sequence by its leading byte (0 when it cannot lead).
pub open spec fn utf8_len(b: u8) -> int {
    if b <= 0x7Fu8 {
        1
    } else if 0xC0u8 <= b <= 0xDFu8 {
        2
    } else if 0xE0u8 <= b <= 0xEFu8 {
        3
    } else if 0xF0u8 <= b <= 0xF7u8 {
        4
    } else {
        0
    }
}

/// `r` with the characters `a` in front of its text.
pub open spec fn prepend(a: Seq<char>, r: Result<(Seq<char>, int), LiteParseError>) -> Result<
    (Seq<char>, int),
    LiteParseError,
> {
    match r {
        Ok((x, q)) => Ok((a + x, q)),
        Err(e) => Err(e),
    }
}

/// The rest of the string opened at `start`, from byte `p`: its characters
/// and the position after the closing quote.
pub open spec fn string_rest(d: Seq<u8>, start: int, p: int) -> Result<(Seq<char>, int), LiteParseError>
    decreases d.len() - p,
{
    if p < 0 || p >= d.len() {
        Err(LiteParseError::UnterminatedString { pos: at_pos(start) })
    } else {
        let b = d[p];
        if b == 34u8 {
            Ok((Seq::empty(), p + 1))
        } else if b == 92u8 {
            match escape_at(d, start, p + 1) {
                Err(e) => Err(e),
                Ok((c, q)) => if q > p {
                    prepend(seq![c], string_rest(d, start, q))
                } else {
                    Err(LiteParseError::UnterminatedString { pos: at_pos(start) })
                },
            }
        } else if b < 32u8 {
            Err(LiteParseError::UnexpectedChar { ch: b, pos: at_pos(p) })
        } else if b < 0x80u8 {
            prepend(seq![b as char], string_rest(d, start, p + 1))
        } else {
            let n = utf8_len(b);
            if n == 0 || p + n > d.len() {
                Err(LiteParseError::UnterminatedString { pos: at_pos(start) })
            } else if !valid_utf8(d.subrange(p, p + n)) {
                Err(LiteParseError::UnexpectedChar { ch: b, pos: at_pos(p) })
            } else {
                prepend(decode_utf8(d.subrange(p, p + n)), string_rest(d, start, p + n))
            }
        }
    }
}

proof fn lemma_prepend_assoc(a: Seq<char>, b: Seq<char>, r: Result<(Seq<char>, int), LiteParseError>)
    ensures
        prepend(a, prepend(b, r)) == prepend(a + b, r),
{
    match r {
        Ok((x, q)) => {
            assert(a + (b + x) =~= (a + b) + x);
        },
        Err(_) => {},
    }
}

/// The character with code point `v`, when `v` is a Unicode scalar value.
///
/// Calls `char::from_u32`, which returns `None` exactly for surrogates and
/// values above 0x10FFFF.
#[verifier::external_body]
fn char_from_u32(v: u32) -> (r: Option<char>)
    ensures
        r is Some <==> vstd::utf8::is_scalar(v),
        r matches Some(c) ==> c as u32 == v,
{
    char::from_u32(v)
}

fn skip_ws(d: &[u8], p: usize) -> (q: usize)
    requires
        p <= d@.len(),
    ensures
        q == ws_end(d@, p as int),
        q <= d@.len(),
{
    let mut q = p;
    while q < d.len() && (d[q] == 32 || d[q] == 9 || d[q] == 10 || d[q] == 13)
        invariant
            p <= q <= d@.len(),
            ws_end(d@, q as int) == ws_end(d@, p as int),
        decreases d@.len() - q,
    {
        q = q + 1;
    }
    q
}

fn skip_digits(d: &[u8], p: usize) -> (q: usize)
    requires
        p <= d@.len(),
    ensures
        q == digits_end(d@, p as int),
        p <= q <= d@.len(),
{
    let mut q = p;
    while q < d.len() && 48 <= d[q] && d[q] <= 57
        invariant
            p <= q <= d@.len(),
            digits_end(d@, q as int) == digits_end(d@, p as int),
        decreases d@.len() - q,
    {
        q = q + 1;
    }
    q
}

fn hex_val_exec(b: u8) -> (r: Option<u32>)
    ensures
        r == hex_val(b),
{
    if 48 <= b && b <= 57 {
        Some((b - 48) as u32)
    } else if 97 <= b && b <= 102 {
        Some((b - 87) as u32)
    } else if 65 <= b && b <= 70 {
        Some((b - 55) as u32)
    } else {
        None
    }
}

fn hex4(d: &[u8], p: usize) -> (r: Option<u32>)
    requires
        p <= d@.len(),
    ensures
        r == hex4_at(d@, p as int),
{
    if d.len() - p < 4 {
        return None;
    }
    let a = match hex_val_exec(d[p]) {
        Some(v) => v,
        None => return None,
    };
    let b = match hex_val_exec(d[p + 1]) {
        Some(v) => v,
        None => return None,
    };
    let c = match hex_val_exec(d[p + 2]) {
        Some(v) => v,
        None => return None,
    };
    let e = match hex_val_exec(d[p + 3]) {
        Some(v) => v,
        None => return None,
    };
    Some(a * 4096 + b * 256 + c * 16 + e)
}

fn simple_escape_exec(b: u8) -> (r: Option<char>)
    ensures
        r == simple_escape(b),
{
    if b == 34 {
        Some('"')
    } else if b == 92 {
        Some('\\')
    } else if b == 47 {
        Some('/')
    } else if b == 98 {
        Some('\x08')
    } else if b == 102 {
        Some('\x0C')
    } else if b == 110 {
        Some('\n')
    } else if b == 114 {
        Some('\r')
    } else if b == 116 {
        Some('\t')
    } else {
        None
    }
}

fn scan_escape(d: &[u8], start: usize, p: usize) -> (r: Result<(char, usize), LiteParseError>)
    requires
        p <= d@.len(),
    ensures
        match r {
            Ok((c, q)) => escape_at(d@, start as int, p as int) == Ok::<(char, int), LiteParseError>(
                (c, q as int),
            ) && p < q <= d@.len(),
            Err(e) => escape_at(d@, start as int, p as int) == Err::<(char, int), LiteParseError>(e),
        },
{
    if p >= d.len() {
        return Err(LiteParseError::UnterminatedString { pos: Pos::new(start) });
    }
    let b = d[p];
    if let Some(c) = simple_escape_exec(b) {
        return Ok((c, p + 1));
    }
    if b != 117 {
        return Err(LiteParseError::InvalidEscape { pos: Pos::new(p) });
    }
    let cp = match hex4(d, p + 1) {
        Some(v) => v,
        None => return Err(LiteParseError::InvalidUnicodeEscape { pos: Pos::new(p) }),
    };
    if 0xD800 <= cp && cp <= 0xDBFF {
        let q = p + 5;
        if d.len() - q > 1 && d[q] == 92 && d[q + 1] == 117 {
            let low = match hex4(d, q + 2) {
                Some(v) => v,
                None => return Err(LiteParseError::InvalidUnicodeEscape { pos: Pos::new(p) }),
            };
            if !(0xDC00 <= low && low <= 0xDFFF) {
                return Err(LiteParseError::InvalidSurrogatePair { pos: Pos::new(p) });
            }
            let hi: u32 = cp - 0xD800;
            let shifted: u32 = hi << 10u32;
            assert(shifted == hi * 1024) by (bit_vector)
                requires
                    hi < 1024,
                    shifted == hi << 10u32,
            ;
            let combined: u32 = 0x10000 + shifted + (low - 0xDC00);
            match char_from_u32(combined) {
                Some(c) => {
                    proof {
                        vstd::utf8::char_u32_cast(c, combined);
                    }
                    Ok((c, q + 6))
                },
                None => Err(LiteParseError::InvalidSurrogatePair { pos: Pos::new(p) }),
            }
        } else {
            Err(LiteParseError::InvalidSurrogatePair { pos: Pos::new(p) })
        }
    } else if 0xDC00 <= cp && cp <= 0xDFFF {
        Err(LiteParseError::InvalidSurrogatePair { pos: Pos::new(p) })
    } else {
        match char_from_u32(cp) {
            Some(c) => {
                proof {
                    vstd::utf8::char_u32_cast(c, cp);
                }
                Ok((c, p + 5))
            },
            None => Err(LiteParseError::InvalidUnicodeEscape { pos: Pos::new(p) }),
        }
    }
}

fn utf8_len_exec(b: u8) -> (r: usize)
    ensures
        r == utf8_len(b),
{
    if b <= 0x7F {
        1
    } else if 0xC0 <= b && b <= 0xDF {
        2
    } else if 0xE0 <= b && b <= 0xEF {
        3
    } else if 0xF0 <= b && b <= 0xF7 {
        4
    } else {
        0
    }
}

/// Scan the string whose opening quote is at `start`.
fn scan_string(d: &[u8], start: usize) -> (r: Result<(String, usize), LiteParseError>)
    requires
        start < d@.len(),
    ensures
        match r {
            Ok((s, q)) => string_rest(d@, start as int, start + 1) == Ok::<
                (Seq<char>, int),
                LiteParseError,
            >((s@, q as int)) && q <= d@.len(),
            Err(e) => string_rest(d@, start as int, start + 1) == Err::<
                (Seq<char>, int),
                LiteParseError,
            >(e),
        },
{
    let len = d.len();
    let mut s = String::new();
    let mut pos = start + 1;
    proof {
        assert(Seq::<char>::empty() + Seq::<char>::empty() =~= Seq::<char>::empty());
        lemma_prepend_assoc(Seq::empty(), Seq::empty(), string_rest(d@, start as int, pos as int));
        match string_rest(d@, start as int, pos as int) {
            Ok((x, q)) => {
                assert(Seq::<char>::empty() + x =~= x);
            },
            Err(_) => {},
        }
    }
    loop
        invariant
            len == d@.len(),
            start < pos <= d@.len(),
            string_rest(d@, start as int, start + 1) == prepend(
                s@,
                string_rest(d@, start as int, pos as int),
            ),
        decreases d@.len() - pos,
    {
        if pos >= len {
            return Err(LiteParseError::UnterminatedString { pos: Pos::new(start) });
        }
        let b = d[pos];
        if b == 34 {
            proof {
                assert(s@ + Seq::<char>::empty() =~= s@);
            }
            return Ok((s, pos + 1));
        } else if b == 92 {
            match scan_escape(d, start, pos + 1) {
                Ok((c, q)) => {
                    let ghost s0 = s@;
                    proof {
                        lemma_prepend_assoc(s0, seq![c], string_rest(d@, start as int, q as int));
                    }
                    push_char(&mut s, c);
                    proof {
                        assert(s@ =~= s0 + seq![c]);
                    }
                    pos = q;
                },
                Err(e) => {
                    return Err(e);
                },
            }
        } else if b < 32 {
            return Err(LiteParseError::UnexpectedChar { ch: b, pos: Pos::new(pos) });
        } else if b < 0x80 {
            let c = b as char;
            let ghost s0 = s@;
            proof {
                lemma_prepend_assoc(s0, seq![c], string_rest(d@, start as int, pos + 1));
            }
            push_char(&mut s, c);
            proof {
                assert(s@ =~= s0 + seq![c]);
            }
            pos = pos + 1;
        } else {
            let n = utf8_len_exec(b);
            if n == 0 || n > d.len() - pos {
                return Err(LiteParseError::UnterminatedString { pos: Pos::new(start) });
            }
            match utf8_text(&d[pos..pos + n]) {
                Ok(t) => {
                    proof {
                        lemma_prepend_assoc(s@, t@, string_rest(d@, start as int, pos + n));
                    }
                    push_str(&mut s, t.as_str());
                    pos = pos + n;
                },
                Err(_) => {
                    return Err(LiteParseError::UnexpectedChar { ch: b, pos: Pos::new(pos) });
                },
            }
        }
    }
}

/// Where the number literal that starts at `start` ends, and whether it has
/// a fraction or an exponent; nothing when it is malformed.
pub open spec fn number_end(d: Seq<u8>, start: int) -> Option<(int, bool)> {
    let p0 = if start < d.len() && d[start] == 45u8 {
        start + 1
    } else {
        start
    };
    if p0 >= d.len() {
        None
    } else {
        let p1 = if d[p0] == 48u8 {
            if p0 + 1 < d.len() && is_digit_byte(d[p0 + 1]) {
                -1
            } else {
                p0 + 1
            }
        } else if is_digit_byte(d[p0]) {
            digits_end(d, p0)
        } else {
            -1
        };
        if p1 < 0 {
            None
        } else {
            let frac = p1 < d.len() && d[p1] == 46u8;
            if frac && (p1 + 1 >= d.len() || !is_digit_byte(d[p1 + 1])) {
                None
            } else {
                let p2 = if frac {
                    digits_end(d, p1 + 1)
                } else {
                    p1
                };
                let ex = p2 < d.len() && (d[p2] == 101u8 || d[p2] == 69u8);
                let p3 = if ex && p2 + 1 < d.len() && (d[p2 + 1] == 43u8 || d[p2 + 1] == 45u8) {
                    p2 + 2
                } else {
                    p2 + 1
                };
                if ex && (p3 >= d.len() || !is_digit_byte(d[p3])) {
                    None
                } else if ex {
                    Some((digits_end(d, p3), true))
                } else {
                    Some((p2, frac))
                }
            }
        }
    }
}

/// The value of a run of decimal digits.
pub open spec fn dec_value(s: Seq<u8>) -> nat
    decreases s.len(),
{
    if s.len() == 0 {
        0
    } else {
        dec_value(s.drop_last()) * 10 + (s.last() - 48) as nat
    }
}

/// What `str::parse::<i64>` gives for integer text (an optional minus and digits).
pub open spec fn int_text_value(t: Seq<u8>) -> Option<i64> {
    if t.len() > 0 && t[0] == 45u8 {
        let v = dec_value(t.drop_first());
        if v <= 0x8000_0000_0000_0000 {
            Some((0 - v) as i64)
        } else {
            None
        }
    } else {
        let v = dec_value(t);
        if v <= 0x7FFF_FFFF_FFFF_FFFF {
            Some(v as i64)
        } else {
            None
        }
    }
}

/// The number token that starts at `start`, and the position after it.
pub open spec fn number_at(d: Seq<u8>, start: int) -> Result<(TokenView, int), LiteParseError> {
    match number_end(d, start) {
        None => Err(LiteParseError::InvalidNumber { pos: at_pos(start) }),
        Some((e, is_float)) => {
            let t = d.subrange(start, e);
            if is_float {
                Ok((TokenView::Number(ascii_chars(t)), e))
            } else {
                match int_text_value(t) {
                    Some(v) => Ok((TokenView::Integer(v), e)),
                    None => Ok((TokenView::Number(ascii_chars(t)), e)),
                }
            }
        },
    }
}

/// The bytes of `true`.
pub open spec fn true_bytes() -> Seq<u8> {
    seq![116u8, 114, 117, 101]
}

/// The bytes of `false`.
pub open spec fn false_bytes() -> Seq<u8> {
    seq![102u8, 97, 108, 115, 101]
}

/// The bytes of `null`.
pub open spec fn null_bytes() -> Seq<u8> {
    seq![110u8, 117, 108, 108]
}

/// The bytes at `q` spell `lit`.
pub open spec fn has_literal(d: Seq<u8>, q: int, lit: Seq<u8>) -> bool {
    q + lit.len() <= d.len() && d.subrange(q, q + lit.len()) == lit
}

/// The next token from byte `p` after whitespace (none at the end of the
/// input), and the position after it.
#[verifier::opaque]
pub open spec fn scan_at(d: Seq<u8>, p: int) -> Result<(Option<TokenView>, int), LiteParseError> {
    let q = ws_end(d, p);
    if q >= d.len() {
        Ok((None, q))
    } else {
        let b = d[q];
        if b == 123u8 {
            Ok((Some(TokenView::ObjectStart), q + 1))
        } else if b == 125u8 {
            Ok((Some(TokenView::ObjectEnd), q + 1))
        } else if b == 91u8 {
            Ok((Some(TokenView::ArrayStart), q + 1))
        } else if b == 93u8 {
            Ok((Some(TokenView::ArrayEnd), q + 1))
        } else if b == 58u8 {
            Ok((Some(TokenView::Colon), q + 1))
        } else if b == 44u8 {
            Ok((Some(TokenView::Comma), q + 1))
        } else if b == 34u8 {
            match string_rest(d, q, q + 1) {
                Ok((s, e)) => Ok((Some(TokenView::String(s)), e)),
                Err(e) => Err(e),
            }
        } else if b == 116u8 {
            if has_literal(d, q, true_bytes()) {
                Ok((Some(TokenView::Bool(true)), q + 4))
            } else {
                Err(LiteParseError::InvalidLiteral { pos: at_pos(q) })
            }
        } else if b == 102u8 {
            if has_literal(d, q, false_bytes()) {
                Ok((Some(TokenView::Bool(false)), q + 5))
            } else {
                Err(LiteParseError::InvalidLiteral { pos: at_pos(q) })
            }
        } else if b == 110u8 {
            if has_literal(d, q, null_bytes()) {
                Ok((Some(TokenView::Null), q + 4))
            } else {
                Err(LiteParseError::InvalidLiteral { pos: at_pos(q) })
            }
        } else if b == 45u8 || is_digit_byte(b) {
            match number_at(d, q) {
                Ok((t, e)) => Ok((Some(t), e)),
                Err(e) => Err(e),
            }
        } else {
            Err(LiteParseError::UnexpectedChar { ch: b, pos: at_pos(q) })
        }
    }
}

proof fn lemma_dec_value_prefix(s: Seq<u8>, k: int)
    requires
        0 <= k <= s.len(),
        forall|i: int| 0 <= i < s.len() ==> is_digit_byte(#[trigger] s[i]),
    ensures
        dec_value(s.subrange(0, k)) <= dec_value(s),
    decreases s.len() - k,
{
    if k < s.len() {
        let t = s.subrange(0, k + 1);
        assert(t.drop_last() =~= s.subrange(0, k));
        assert(t.last() == s[k]);
        lemma_dec_value_prefix(s, k + 1);
    } else {
        assert(s.subrange(0, k) =~= s);
    }
}

proof fn lemma_digits_end_digits(d: Seq<u8>, p: int)
    requires
        0 <= p <= d.len(),
    ensures
        p <= digits_end(d, p) <= d.len(),
        forall|i: int| p <= i < digits_end(d, p) ==> is_digit_byte(#[trigger] d[i]),
    decreases d.len() - p,
{
    if p < d.len() && is_digit_byte(d[p]) {
        lemma_digits_end_digits(d, p + 1);
    }
}

/// The value of the integer text `d[a..e]` (an optional minus and digits), when it fits in i64.
fn int_value(d: &[u8], a: usize, e: usize) -> (r: Option<i64>)
    requires
        a < e <= d@.len(),
        forall|i: int|
            (if d@[a as int] == 45u8 {
                a + 1
            } else {
                a as int
            }) <= i < e ==> is_digit_byte(#[trigger] d@[i]),
    ensures
        r == int_text_value(d@.subrange(a as int, e as int)),
{
    let ghost t = d@.subrange(a as int, e as int);
    let neg = d[a] == 45;
    let s0: usize = if neg {
        a + 1
    } else {
        a
    };
    let limit: u64 = if neg {
        0x8000_0000_0000_0000
    } else {
        0x7FFF_FFFF_FFFF_FFFF
    };
    let ghost digs = d@.subrange(s0 as int, e as int);
    proof {
        if neg {
            assert(t.drop_first() =~= digs);
        } else {
            assert(t =~= digs);
        }
        assert(digs.subrange(0, 0) =~= Seq::<u8>::empty());
    }
    let mut v: u64 = 0;
    let mut i = s0;
    while i < e
        invariant
            a < e,
            s0 <= i <= e <= d@.len(),
            t == d@.subrange(a as int, e as int),
            neg == (d@[a as int] == 45u8),
            neg ==> t.drop_first() == digs,
            !neg ==> t == digs,
            limit == (if neg {
                0x8000_0000_0000_0000u64
            } else {
                0x7FFF_FFFF_FFFF_FFFFu64
            }),
            digs == d@.subrange(s0 as int, e as int),
            forall|k: int| s0 <= k < e ==> is_digit_byte(#[trigger] d@[k]),
            v == dec_value(digs.subrange(0, i - s0)),
            v <= limit,
        decreases e - i,
    {
        let digit = (d[i] - 48) as u64;
        proof {
            let sub = digs.subrange(0, i - s0 + 1);
            assert(sub.drop_last() =~= digs.subrange(0, i - s0));
            assert(sub.last() == d@[i as int]);
        }
        if v > (limit - digit) / 10 {
            proof {
                assert(v * 10 + digit > limit) by (nonlinear_arith)
                    requires
                        v > (limit - digit) / 10,
                        digit <= 9,
                        digit <= limit,
                ;
                assert forall|k: int| 0 <= k < digs.len() implies is_digit_byte(#[trigger] digs[k]) by {
                    assert(digs[k] == d@[s0 + k]);
                }
                let sub = digs.subrange(0, i - s0 + 1);
                assert(sub.last() - 48 == digit);
                assert(dec_value(sub) == v * 10 + digit);
                lemma_dec_value_prefix(digs, i - s0 + 1);
                assert(dec_value(digs) > limit);
                assert(t.len() > 0 && t[0] == d@[a as int]);
            }
            return None;
        }
        proof {
            assert(v * 10 + digit <= limit) by (nonlinear_arith)
                requires
                    v <= (limit - digit) / 10,
                    digit <= 9,
                    digit <= limit,
            ;
        }
        v = v * 10 + digit;
        i = i + 1;
    }
    proof {
        assert(digs.subrange(0, e - s0) =~= digs);
    }
    if neg {
        if v == 0x8000_0000_0000_0000 {
            Some(i64::MIN)
        } else {
            Some(0 - (v as i64))
        }
    } else {
        Some(v as i64)
    }
}

/// The bytes `d[a..e]` as text, one character per byte.
fn ascii_text(d: &[u8], a: usize, e: usize) -> (s: String)
    requires
        a <= e <= d@.len(),
    ensures
        s@ == ascii_chars(d@.subrange(a as int, e as int)),
{
    let mut s = String::new();
    push_ascii(&mut s, &d[a..e]);
    proof {
        assert(Seq::<char>::empty() + ascii_chars(d@.subrange(a as int, e as int)) =~= ascii_chars(
            d@.subrange(a as int, e as int),
        ));
    }
    s
}

/// Where the number literal that starts at `start` ends, and whether it has a
/// fraction or an exponent.
fn number_extent(d: &[u8], start: usize) -> (r: Option<(usize, bool)>)
    requires
        start < d@.len(),
    ensures
        match r {
            Some((e, f)) => number_end(d@, start as int) == Some((e as int, f)) && e <= d@.len(),
            None => number_end(d@, start as int) is None,
        },
{
    let len = d.len();
    let p0 = if d[start] == 45 {
        start + 1
    } else {
        start
    };
    if p0 >= len {
        return None;
    }
    let p1: usize;
    if d[p0] == 48 {
        if p0 + 1 < len && 48 <= d[p0 + 1] && d[p0 + 1] <= 57 {
            return None;
        }
        p1 = p0 + 1;
    } else if 48 <= d[p0] && d[p0] <= 57 {
        p1 = skip_digits(d, p0);
    } else {
        return None;
    }
    let frac = p1 < len && d[p1] == 46;
    if frac && (p1 + 1 >= len || !(48 <= d[p1 + 1] && d[p1 + 1] <= 57)) {
        return None;
    }
    let p2 = if frac {
        skip_digits(d, p1 + 1)
    } else {
        p1
    };
    let ex = p2 < len && (d[p2] == 101 || d[p2] == 69);
    if !ex {
        return Some((p2, frac));
    }
    let p3 = if p2 + 1 < len && (d[p2 + 1] == 43 || d[p2 + 1] == 45) {
        p2 + 2
    } else {
        p2 + 1
    };
    if p3 >= len || !(48 <= d[p3] && d[p3] <= 57) {
        return None;
    }
    Some((skip_digits(d, p3), true))
}

proof fn lemma_number_extent(d: Seq<u8>, start: int)
    requires
        0 <= start < d.len(),
        number_end(d, start) is Some,
    ensures
        number_end(d, start) matches Some((e, f)) && start < e <= d.len() && (!f ==> forall|i: int|
            (if d[start] == 45u8 {
                start + 1
            } else {
                start
            }) <= i < e ==> is_digit_byte(#[trigger] d[i])),
{
    let p0 = if d[start] == 45u8 {
        start + 1
    } else {
        start
    };
    lemma_digits_end_digits(d, p0);
    if p0 + 1 <= d.len() {
        lemma_digits_end_digits(d, p0 + 1);
    }
    let p1 = if d[p0] == 48u8 {
        p0 + 1
    } else {
        digits_end(d, p0)
    };
    if p1 + 1 <= d.len() {
        lemma_digits_end_digits(d, p1 + 1);
    }
    let frac = p1 < d.len() && d[p1] == 46u8;
    if frac {
        let q2 = digits_end(d, p1 + 1);
        if q2 + 1 <= d.len() {
            lemma_digits_end_digits(d, q2 + 1);
        }
        if q2 + 2 <= d.len() {
            lemma_digits_end_digits(d, q2 + 2);
        }
    } else {
        if p1 + 2 <= d.len() {
            lemma_digits_end_digits(d, p1 + 2);
        }
    }
}

/// Scan the number literal that starts at `start`.
fn scan_number(d: &[u8], start: usize) -> (r: Result<(Token, usize), LiteParseError>)
    requires
        start < d@.len(),
    ensures
        match r {
            Ok((t, q)) => number_at(d@, start as int) == Ok::<(TokenView, int), LiteParseError>(
                (t@, q as int),
            ) && q <= d@.len(),
            Err(e) => number_at(d@, start as int) == Err::<(TokenView, int), LiteParseError>(e),
        },
{
    let (end, is_float) = match number_extent(d, start) {
        Some(x) => x,
        None => return Err(LiteParseError::InvalidNumber { pos: Pos::new(start) }),
    };
    proof {
        lemma_number_extent(d@, start as int);
    }
    if is_float {
        return Ok((Token::Number(ascii_text(d, start, end)), end));
    }
    match int_value(d, start, end) {
        Some(v) => Ok((Token::Integer(v), end)),
        None => Ok((Token::Number(ascii_text(d, start, end)), end)),
    }
}

/// The bytes at `q` spell `lit`.
fn match_literal(d: &[u8], q: usize, lit: &[u8]) -> (r: bool)
    requires
        q <= d@.len(),
    ensures
        r == has_literal(d@, q as int, lit@),
{
    let dl = d.len();
    if lit.len() > dl - q {
        return false;
    }
    let mut i: usize = 0;
    while i < lit.len()
        invariant
            dl == d@.len(),
            i <= lit@.len(),
            q + lit@.len() <= d@.len(),
            forall|k: int| 0 <= k < i ==> d@[q + k] == lit@[k],
        decreases lit@.len() - i,
    {
        if d[q + i] != lit[i] {
            proof {
                assert(d@.subrange(q as int, q + lit@.len())[i as int] != lit@[i as int]);
            }
            return false;
        }
        i = i + 1;
    }
    proof {
        assert(d@.subrange(q as int, q + lit@.len()) =~= lit@);
    }
    true
}

/// Scan the next token from `p` after whitespace.
fn scan_token(d: &[u8], p: usize) -> (r: Result<(Option<Token>, usize), LiteParseError>)
    requires
        p <= d@.len(),
    ensures
        match r {
            Ok((t, q)) => scan_at(d@, p as int) == Ok::<(Option<TokenView>, int), LiteParseError>(
                (opt_token_view(t), q as int),
            ) && q <= d@.len(),
            Err(e) => scan_at(d@, p as int) == Err::<(Option<TokenView>, int), LiteParseError>(e),
        },
{
    proof {
        reveal(scan_at);
    }
    let q = skip_ws(d, p);
    if q >= d.len() {
        return Ok((None, q));
    }
    let b = d[q];
    if b == 123 {
        Ok((Some(Token::ObjectStart), q + 1))
    } else if b == 125 {
        Ok((Some(Token::ObjectEnd), q + 1))
    } else if b == 91 {
        Ok((Some(Token::ArrayStart), q + 1))
    } else if b == 93 {
        Ok((Some(Token::ArrayEnd), q + 1))
    } else if b == 58 {
        Ok((Some(Token::Colon), q + 1))
    } else if b == 44 {
        Ok((Some(Token::Comma), q + 1))
    } else if b == 34 {
        match scan_string(d, q) {
            Ok((s, e)) => Ok((Some(Token::String(s)), e)),
            Err(e) => Err(e),
        }
    } else if b == 116 {
        if match_literal(d, q, &[116u8, 114, 117, 101]) {
            Ok((Some(Token::Bool(true)), q + 4))
        } else {
            Err(LiteParseError::InvalidLiteral { pos: Pos::new(q) })
        }
    } else if b == 102 {
        if match_literal(d, q, &[102u8, 97, 108, 115, 101]) {
            Ok((Some(Token::Bool(false)), q + 5))
        } else {
            Err(LiteParseError::InvalidLiteral { pos: Pos::new(q) })
        }
    } else if b == 110 {
        if match_literal(d, q, &[110u8, 117, 108, 108]) {
            Ok((Some(Token::Null), q + 4))
        } else {
            Err(LiteParseError::InvalidLiteral { pos: Pos::new(q) })
        }
    } else if b == 45 || (48 <= b && b <= 57) {
        match scan_number(d, q) {
            Ok((t, e)) => Ok((Some(t), e)),
            Err(e) => Err(e),
        }
    } else {
        Err(LiteParseError::UnexpectedChar { ch: b, pos: Pos::new(q) })
    }
}

proof fn lemma_ws_end_bounds(d: Seq<u8>, p: int)
    requires
        0 <= p <= d.len(),
    ensures
        p <= ws_end(d, p) <= d.len(),
    decreases d.len() - p,
{
    if p < d.len() && is_json_ws(d[p]) {
        lemma_ws_end_bounds(d, p + 1);
    }
}

proof fn lemma_string_rest_progress(d: Seq<u8>, start: int, p: int)
    ensures
        string_rest(d, start, p) matches Ok((_, e)) ==> p < e <= d.len(),
    decreases d.len() - p,
{
    if 0 <= p < d.len() {
        let b = d[p];
        if b == 34u8 {
        } else if b == 92u8 {
            match escape_at(d, start, p + 1) {
                Ok((c, q)) => {
                    if q > p {
                        lemma_string_rest_progress(d, start, q);
                    }
                },
                Err(_) => {},
            }
        } else if b < 32u8 {
        } else if b < 0x80u8 {
            lemma_string_rest_progress(d, start, p + 1);
        } else {
            let n = utf8_len(b);
            if n > 0 && p + n <= d.len() {
                lemma_string_rest_progress(d, start, p + n);
            }
        }
    }
}

/// A scanned token lies after the scan position: the lexer always moves on.
pub proof fn lemma_scan_progress(d: Seq<u8>, p: int)
    requires
        0 <= p <= d.len(),
    ensures
        scan_at(d, p) matches Ok((t, q)) ==> p <= q <= d.len() && (t is Some ==> p < q),
        scan_at(d, p) is Err ==> p < d.len(),
{
    reveal(scan_at);
    lemma_ws_end_bounds(d, p);
    let q = ws_end(d, p);
    if q < d.len() {
        let b = d[q];
        if b == 34u8 {
            lemma_string_rest_progress(d, q, q + 1);
        } else if b == 45u8 || is_digit_byte(b) {
            if number_end(d, q) is Some {
                lemma_number_extent(d, q);
            }
        }
    }
}

/// At the end of the input, scanning again finds the end at the same place.
pub proof fn lemma_scan_at_end(d: Seq<u8>, p: int)
    requires
        scan_at(d, p) matches Ok((None, q)),
    ensures
        scan_at(d, p) matches Ok((None, q)) && scan_at(d, q) == scan_at(d, p),
{
    reveal(scan_at);
}

/// The name of a token's kind as the text that error messages carry.
pub open spec fn kind_str(t: TokenView) -> &'static str {
    match t {
        TokenView::String(_) => "string",
        TokenView::Integer(_) => "integer",
        TokenView::Number(_) => "number",
        TokenView::Bool(_) => "boolean",
        TokenView::Null => "null",
        TokenView::ObjectStart => "'{'",
        TokenView::ObjectEnd => "'}'",
        TokenView::ArrayStart => "'['",
        TokenView::ArrayEnd => "']'",
        TokenView::Colon => "':'",
        TokenView::Comma => "','",
    }
}

/// Two tokens are of the same kind (whatever they hold).
pub open spec fn same_kind(a: TokenView, b: TokenView) -> bool {
    match (a, b) {
        (TokenView::String(_), TokenView::String(_)) => true,
        (TokenView::Integer(_), TokenView::Integer(_)) => true,
        (TokenView::Number(_), TokenView::Number(_)) => true,
        (TokenView::Bool(_), TokenView::Bool(_)) => true,
        (TokenView::Null, TokenView::Null) => true,
        (TokenView::ObjectStart, TokenView::ObjectStart) => true,
        (TokenView::ObjectEnd, TokenView::ObjectEnd) => true,
        (TokenView::ArrayStart, TokenView::ArrayStart) => true,
        (TokenView::ArrayEnd, TokenView::ArrayEnd) => true,
        (TokenView::Colon, TokenView::Colon) => true,
        (TokenView::Comma, TokenView::Comma) => true,
        _ => false,
    }
}

/// A human-readable name for a token's kind (for error messages).
fn token_name(t: &Token) -> (r: &'static str)
    ensures
        r == kind_str(t@),
{
    match t {
        Token::String(_) => "string",
        Token::Integer(_) => "integer",
        Token::Number(_) => "number",
        Token::Bool(_) => "boolean",
        Token::Null => "null",
        Token::ObjectStart => "'{'",
        Token::ObjectEnd => "'}'",
        Token::ArrayStart => "'['",
        Token::ArrayEnd => "']'",
        Token::Colon => "':'",
        Token::Comma => "','",
    }
}

pub(crate) fn token_kinds_match(a: &Token, b: &Token) -> (r: bool)
    ensures
        r == same_kind(a@, b@),
{
    match (a, b) {
        (Token::String(_), Token::String(_)) => true,
        (Token::Integer(_), Token::Integer(_)) => true,
        (Token::Number(_), Token::Number(_)) => true,
        (Token::Bool(_), Token::Bool(_)) => true,
        (Token::Null, Token::Null) => true,
        (Token::ObjectStart, Token::ObjectStart) => true,
        (Token::ObjectEnd, Token::ObjectEnd) => true,
        (Token::ArrayStart, Token::ArrayStart) => true,
        (Token::ArrayEnd, Token::ArrayEnd) => true,
        (Token::Colon, Token::Colon) => true,
        (Token::Comma, Token::Comma) => true,
        _ => false,
    }
}

/// The outcome of taking the next token: the peeked one if there is one,
/// else the next token scanned from `pos`; with the position after it.
pub open spec fn next_outcome(d: Seq<u8>, pos: int, peeked: Option<TokenView>) -> Result<
    (Option<TokenView>, int),
    LiteParseError,
> {
    match peeked {
        Some(t) => Ok((Some(t), pos)),
        None => scan_at(d, pos),
    }
}

/// Byte-level JSON lexer with position tracking.
pub struct Lexer<'a> {
    input: &'a [u8],
    /// Current byte offset into `input`.
    pos: usize,
    /// Peeked token, if any.
    peeked: Option<Token>,
}

impl<'a> Lexer<'a> {
    /// The input bytes.
    pub closed spec fn input_bytes(&self) -> Seq<u8> {
        self.input@
    }

    /// The current byte offset.
    pub closed spec fn offset(&self) -> int {
        self.pos as int
    }

    /// The token taken by a peek and not yet consumed.
    pub closed spec fn peeked_token(&self) -> Option<TokenView> {
        opt_token_view(self.peeked)
    }

    /// The offset lies within the input.
    pub open spec fn wf(&self) -> bool {
        0 <= self.offset() <= self.input_bytes().len()
    }

    /// Create a new lexer over the given input bytes.
    pub fn new(input: &'a [u8]) -> (r: Self)
        ensures
            r.wf(),
            r.input_bytes() == input@,
            r.offset() == 0,
            r.peeked_token() is None,
    {
        Lexer { input, pos: 0, peeked: None }
    }

    /// Returns the current byte offset in the input.
    pub fn position(&self) -> (r: usize)
        ensures
            r == self.offset(),
    {
        self.pos
    }

    /// Returns true if all input has been consumed (ignoring trailing whitespace).
    pub fn is_eof(&mut self) -> (r: bool)
        requires
            old(self).wf(),
        ensures
            final(self).wf(),
            final(self).input_bytes() == old(self).input_bytes(),
            final(self).peeked_token() == old(self).peeked_token(),
            old(self).peeked_token() is Some ==> !r && final(self).offset() == old(self).offset(),
            old(self).peeked_token() is None ==> final(self).offset() == ws_end(
                old(self).input_bytes(),
                old(self).offset(),
            ) && r == (final(self).offset() >= old(self).input_bytes().len()),
    {
        if self.peeked.is_some() {
            return false;
        }
        self.pos = skip_ws(self.input, self.pos);
        self.pos >= self.input.len()
    }

    /// Consume and return the next token, or `None` if at end of input.
    pub fn next_token(&mut self) -> (r: Result<Option<Token>, LiteParseError>)
        requires
            old(self).wf(),
        ensures
            final(self).wf(),
            final(self).input_bytes() == old(self).input_bytes(),
            final(self).peeked_token() is None,
            match next_outcome(old(self).input_bytes(), old(self).offset(), old(self).peeked_token()) {
                Ok((t, q)) => r matches Ok(o) && opt_token_view(o) == t && final(self).offset() == q,
                Err(e) => r matches Err(e2) && e2 == e,
            },
    {
        let taken = self.peeked.take();
        if let Some(tok) = taken {
            return Ok(Some(tok));
        }
        match scan_token(self.input, self.pos) {
            Ok((t, q)) => {
                self.pos = q;
                Ok(t)
            },
            Err(e) => Err(e),
        }
    }

    /// Peek at the next token without consuming it.
    pub fn peek_token(&mut self) -> (r: Result<Option<&Token>, LiteParseError>)
        requires
            old(self).wf(),
        ensures
            final(self).wf(),
            final(self).input_bytes() == old(self).input_bytes(),
            match next_outcome(old(self).input_bytes(), old(self).offset(), old(self).peeked_token()) {
                Ok((t, q)) => final(self).peeked_token() == t && final(self).offset() == q && (
                r matches Ok(o) && (match o {
                    Some(x) => Some(x@),
                    None => None::<TokenView>,
                }) == t),
                Err(e) => r matches Err(e2) && e2 == e && final(self).peeked_token() is None,
            },
    {
        if self.peeked.is_none() {
            match scan_token(self.input, self.pos) {
                Ok((t, q)) => {
                    self.pos = q;
                    self.peeked = t;
                },
                Err(e) => return Err(e),
            }
        }
        Ok(self.peeked.as_ref())
    }

    /// Consume the next token and verify it is of the same kind as
    /// `expected`. Returns an error if the token doesn't match or if input is
    /// exhausted.
    pub fn expect_token(&mut self, expected: &Token) -> (r: Result<Token, LiteParseError>)
        requires
            old(self).wf(),
        ensures
            final(self).wf(),
            final(self).input_bytes() == old(self).input_bytes(),
            final(self).peeked_token() is None,
            match next_outcome(old(self).input_bytes(), old(self).offset(), old(self).peeked_token()) {
                Err(e) => r matches Err(e2) && e2 == e,
                Ok((None, q)) => r matches Err(e2) && e2 == (LiteParseError::UnexpectedEof {
                    pos: at_pos(q),
                }) && final(self).offset() == q,
                Ok((Some(t), q)) => final(self).offset() == q && if same_kind(t, expected@) {
                    r matches Ok(x) && x@ == t
                } else {
                    r matches Err(e2) && e2 == (LiteParseError::ExpectedToken {
                        expected: kind_str(expected@),
                        pos: at_pos(q),
                    })
                },
            },
    {
        let tok = match self.next_token() {
            Ok(Some(t)) => t,
            Ok(None) => return Err(LiteParseError::UnexpectedEof { pos: Pos::new(self.pos) }),
            Err(e) => return Err(e),
        };
        if !token_kinds_match(&tok, expected) {
            return Err(
                LiteParseError::ExpectedToken { expected: token_name(expected), pos: Pos::new(self.pos) },
            );
        }
        Ok(tok)
    }
}

} // verus!
