//! What parsing O-DF JSON gives: the values, histories, items and objects
//! read from a byte string, stated token by token over the lexer's model.
//!
//! Numbers reach the model as the bits of IEEE 754 doubles. Turning a number
//! literal into a double is floating-point work, done outside this library:
//! the parser is handed a table from the end offset of each number token to
//! the bits of its double.

use vstd::prelude::*;
use super::error::LiteParseError;
use super::lexer::{at_pos, kind_str, same_kind, scan_at, ws_end, TokenView};
use super::parser::{outcome_pos, skip_spec, MAX_DEPTH};
use crate::odf::object::{InfoItemView, ObjectView};
use crate::odf::value::{newest_of, ValueView};
use crate::odf::OmiValueView;

verus! {

/// The outcome of taking one token: the token (none at the end) and the
/// position after it, or a lexical error.
pub type Outcome = Result<(Option<TokenView>, int), LiteParseError>;

/// The bits that the number table gives for the number token ending at `q`:
/// the first entry with that offset.
pub open spec fn num_bits(nt: Seq<(usize, u64)>, q: int) -> Option<u64>
    decreases nt.len(),
{
    if nt.len() == 0 {
        None
    } else if nt[0].0 == q {
        Some(nt[0].1)
    } else {
        num_bits(nt.drop_first(), q)
    }
}

/// Opening a nested structure whose first token is `first`, at nesting depth
/// `depth`, with the lexer at `off`: the position after the opening token.
pub open spec fn open_at(first: Outcome, off: int, depth: nat, start: TokenView) -> Result<int, LiteParseError> {
    if depth + 1 > MAX_DEPTH {
        Err(LiteParseError::DepthExceeded { max: MAX_DEPTH, pos: at_pos(off) })
    } else {
        match first {
            Err(e) => Err(e),
            Ok((None, q)) => Err(LiteParseError::UnexpectedEof { pos: at_pos(q) }),
            Ok((Some(t), q)) => if same_kind(t, start) {
                Ok(q)
            } else {
                Err(LiteParseError::ExpectedToken { expected: kind_str(start), pos: at_pos(q) })
            },
        }
    }
}

/// A scalar O-MI value from the token outcome `first`.
pub open spec fn omi_value_at(nt: Seq<(usize, u64)>, first: Outcome) -> Result<(OmiValueView, int), LiteParseError> {
    match first {
        Err(e) => Err(e),
        Ok((None, q)) => Err(LiteParseError::UnexpectedEof { pos: at_pos(q) }),
        Ok((Some(t), q)) => match t {
            TokenView::Null => Ok((OmiValueView::Null, q)),
            TokenView::Bool(b) => Ok((OmiValueView::Bool(b), q)),
            TokenView::String(s) => Ok((OmiValueView::Str(s), q)),
            TokenView::Number(_) | TokenView::Integer(_) => match num_bits(nt, q) {
                Some(b) => Ok((OmiValueView::Number(b), q)),
                None => Err(LiteParseError::InvalidNumber { pos: at_pos(q) }),
            },
            _ => Err(
                LiteParseError::ExpectedToken {
                    expected: "value (null, bool, number, or string)",
                    pos: at_pos(q),
                },
            ),
        },
    }
}

/// A number (as the bits of its double) from the token outcome `first`.
pub open spec fn number_at(nt: Seq<(usize, u64)>, first: Outcome) -> Result<(u64, int), LiteParseError> {
    match first {
        Err(e) => Err(e),
        Ok((None, q)) => Err(LiteParseError::UnexpectedEof { pos: at_pos(q) }),
        Ok((Some(t), q)) => match t {
            TokenView::Number(_) | TokenView::Integer(_) => match num_bits(nt, q) {
                Some(b) => Ok((b, q)),
                None => Err(LiteParseError::InvalidNumber { pos: at_pos(q) }),
            },
            _ => Err(LiteParseError::ExpectedToken { expected: "number", pos: at_pos(q) }),
        },
    }
}

/// A string from the token outcome `first`.
pub open spec fn string_at(first: Outcome) -> Result<(Seq<char>, int), LiteParseError> {
    match first {
        Err(e) => Err(e),
        Ok((None, q)) => Err(LiteParseError::UnexpectedEof { pos: at_pos(q) }),
        Ok((Some(TokenView::String(s)), q)) => Ok((s, q)),
        Ok((Some(_), q)) => Err(LiteParseError::ExpectedToken { expected: "string", pos: at_pos(q) }),
    }
}

/// An optional string (`null` keeps what was there) from position `q`.
pub open spec fn opt_string_at(d: Seq<u8>, q: int, prev: Option<Seq<char>>) -> Result<
    (Option<Seq<char>>, int),
    LiteParseError,
> {
    match scan_at(d, q) {
        Ok((Some(TokenView::Null), q1)) => Ok((prev, q1)),
        _ => match string_at(scan_at(d, q)) {
            Err(e) => Err(e),
            Ok((s, q1)) => Ok((Some(s), q1)),
        },
    }
}

/// The key and the position after its colon, for a member starting at `q`.
pub open spec fn member_key(d: Seq<u8>, q: int) -> Result<(Seq<char>, int), LiteParseError> {
    match string_at(scan_at(d, q)) {
        Err(e) => Err(e),
        Ok((k, q1)) => match scan_at(d, q1) {
            Err(e) => Err(e),
            Ok((None, q2)) => Err(LiteParseError::UnexpectedEof { pos: at_pos(q2) }),
            Ok((Some(TokenView::Colon), q2)) => Ok((k, q2)),
            Ok((Some(_), q2)) => Err(LiteParseError::ExpectedToken { expected: "':'", pos: at_pos(q2) }),
        },
    }
}

/// What follows a member's value at `q3`: whether a comma (rather than the
/// closing token `close`) came, and the position after it.
pub open spec fn member_sep(d: Seq<u8>, q3: int, close: TokenView, expected: &'static str) -> Result<
    (bool, int),
    LiteParseError,
> {
    match scan_at(d, q3) {
        Err(e) => Err(e),
        Ok((Some(TokenView::Comma), q4)) => Ok((true, q4)),
        Ok((Some(t), q4)) => if same_kind(t, close) {
            Ok((false, q4))
        } else {
            Err(LiteParseError::ExpectedToken { expected, pos: at_pos(q4) })
        },
        Ok((None, q4)) => Err(LiteParseError::ExpectedToken { expected, pos: at_pos(q4) }),
    }
}

/// The fields of a value object read so far.
pub open spec fn value_finish(v: Option<OmiValueView>, t: Option<u64>, p0: int) -> Result<ValueView, LiteParseError> {
    match v {
        None => Err(LiteParseError::MissingField { field: "v", pos: at_pos(p0) }),
        Some(x) => Ok(ValueView { v: x, t }),
    }
}

/// The members of a value object from `q` (before a key); `p0` is the
/// position after its `{`.
pub open spec fn value_members(
    d: Seq<u8>,
    nt: Seq<(usize, u64)>,
    q: int,
    dep: nat,
    v: Option<OmiValueView>,
    t: Option<u64>,
    p0: int,
) -> Result<(ValueView, int), LiteParseError>
    decreases d.len() - q, 0nat,
{
    match member_key(d, q) {
        Err(e) => Err(e),
        Ok((k, q2)) => if q < q2 <= d.len() {
            let field: Result<(Option<OmiValueView>, Option<u64>, int), LiteParseError> = if k
                == "v"@ {
                match omi_value_at(nt, scan_at(d, q2)) {
                    Err(e) => Err(e),
                    Ok((x, q3)) => Ok((Some(x), t, q3)),
                }
            } else if k == "t"@ {
                match scan_at(d, q2) {
                    Ok((Some(TokenView::Null), q3)) => Ok((v, t, q3)),
                    _ => match number_at(nt, scan_at(d, q2)) {
                        Err(e) => Err(e),
                        Ok((b, q3)) => Ok((v, Some(b), q3)),
                    },
                }
            } else {
                match skip_spec(d, scan_at(d, q2), dep) {
                    Err(e) => Err(e),
                    Ok(q3) => Ok((v, t, q3)),
                }
            };
            match field {
                Err(e) => Err(e),
                Ok((v2, t2, q3)) => match member_sep(d, q3, TokenView::ObjectEnd, "',' or '}'") {
                    Err(e) => Err(e),
                    Ok((true, q4)) => if q < q4 <= d.len() {
                        value_members(d, nt, q4, dep, v2, t2, p0)
                    } else {
                        Err(LiteParseError::UnexpectedEof { pos: at_pos(q4) })
                    },
                    Ok((false, q4)) => match value_finish(v2, t2, p0) {
                        Err(e) => Err(e),
                        Ok(x) => Ok((x, q4)),
                    },
                },
            }
        } else {
            Err(LiteParseError::UnexpectedEof { pos: at_pos(q2) })
        },
    }
}

/// A value object `{"v": .., "t": ..}` from the token outcome `first`, with
/// the lexer at `off` and nesting depth `depth`.
pub open spec fn value_at(d: Seq<u8>, nt: Seq<(usize, u64)>, first: Outcome, off: int, depth: nat) -> Result<
    (ValueView, int),
    LiteParseError,
> {
    match open_at(first, off, depth, TokenView::ObjectStart) {
        Err(e) => Err(e),
        Ok(q) => match scan_at(d, q) {
            Err(e) => Err(e),
            Ok((Some(TokenView::ObjectEnd), q1)) => match value_finish(None, None, q) {
                Err(e) => Err(e),
                Ok(x) => Ok((x, q1)),
            },
            Ok(_) => value_members(d, nt, q, depth + 1, None, None, q),
        },
    }
}

/// The elements of a history array from `q` (before an element), newest
/// first as the array lists them, after those in `acc`. The first element's
/// opening token was peeked, so the lexer stood after it.
pub open spec fn ring_elements(d: Seq<u8>, nt: Seq<(usize, u64)>, q: int, dep: nat, acc: Seq<ValueView>) -> Result<
    (Seq<ValueView>, int),
    LiteParseError,
>
    decreases d.len() - q,
{
    let off = if acc.len() == 0 {
        outcome_pos(d, scan_at(d, q))
    } else {
        q
    };
    if q < outcome_pos(d, scan_at(d, q)) <= d.len() {
        match value_at(d, nt, scan_at(d, q), off, dep) {
            Err(e) => Err(e),
            Ok((x, q3)) => match member_sep(d, q3, TokenView::ArrayEnd, "',' or ']'") {
                Err(e) => Err(e),
                Ok((true, q4)) => if q < q4 <= d.len() {
                    ring_elements(d, nt, q4, dep, acc.push(x))
                } else {
                    Err(LiteParseError::UnexpectedEof { pos: at_pos(q4) })
                },
                Ok((false, q4)) => Ok((acc.push(x), q4)),
            },
        }
    } else {
        match value_at(d, nt, scan_at(d, q), off, dep) {
            Err(e) => Err(e),
            Ok((_, q3)) => Err(LiteParseError::UnexpectedEof { pos: at_pos(q3) }),
        }
    }
}

/// A history array from the token outcome `first`: its values newest first.
pub open spec fn ring_at(d: Seq<u8>, nt: Seq<(usize, u64)>, first: Outcome, off: int, depth: nat) -> Result<
    (Seq<ValueView>, int),
    LiteParseError,
> {
    match open_at(first, off, depth, TokenView::ArrayStart) {
        Err(e) => Err(e),
        Ok(q) => match scan_at(d, q) {
            Err(e) => Err(e),
            Ok((Some(TokenView::ArrayEnd), q1)) => Ok((Seq::empty(), q1)),
            Ok(_) => ring_elements(d, nt, q, depth + 1, Seq::empty()),
        },
    }
}

/// The capacity of a history read from `n` values.
pub open spec fn ring_cap(n: nat) -> nat {
    if n > 1 {
        n
    } else {
        1
    }
}

/// The entries of a metadata object from `q` (before a key), after `acc`.
pub open spec fn meta_members(
    d: Seq<u8>,
    nt: Seq<(usize, u64)>,
    q: int,
    acc: Map<Seq<char>, OmiValueView>,
) -> Result<(Map<Seq<char>, OmiValueView>, int), LiteParseError>
    decreases d.len() - q,
{
    match member_key(d, q) {
        Err(e) => Err(e),
        Ok((k, q2)) => if q < q2 <= d.len() {
            match omi_value_at(nt, scan_at(d, q2)) {
                Err(e) => Err(e),
                Ok((x, q3)) => match member_sep(d, q3, TokenView::ObjectEnd, "',' or '}'") {
                    Err(e) => Err(e),
                    Ok((true, q4)) => if q < q4 <= d.len() {
                        meta_members(d, nt, q4, acc.insert(k, x))
                    } else {
                        Err(LiteParseError::UnexpectedEof { pos: at_pos(q4) })
                    },
                    Ok((false, q4)) => Ok((acc.insert(k, x), q4)),
                },
            }
        } else {
            Err(LiteParseError::UnexpectedEof { pos: at_pos(q2) })
        },
    }
}

/// A metadata object (names to scalar values) from the token outcome `first`.
pub open spec fn meta_at(d: Seq<u8>, nt: Seq<(usize, u64)>, first: Outcome, off: int, depth: nat) -> Result<
    (Map<Seq<char>, OmiValueView>, int),
    LiteParseError,
> {
    match open_at(first, off, depth, TokenView::ObjectStart) {
        Err(e) => Err(e),
        Ok(q) => match scan_at(d, q) {
            Err(e) => Err(e),
            Ok((Some(TokenView::ObjectEnd), q1)) => Ok((Map::empty(), q1)),
            Ok(_) => meta_members(d, nt, q, Map::empty()),
        },
    }
}

/// The item whose fields were read so far; its history is given newest first.
pub open spec fn item_finish(
    type_uri: Option<Seq<char>>,
    desc: Option<Seq<char>>,
    meta: Option<Map<Seq<char>, OmiValueView>>,
    values: Option<Seq<ValueView>>,
    p0: int,
) -> Result<InfoItemView, LiteParseError> {
    match values {
        None => Err(LiteParseError::MissingField { field: "values", pos: at_pos(p0) }),
        Some(vs) => Ok(
            InfoItemView { type_uri, desc, meta, values: vs.reverse(), capacity: ring_cap(vs.len()) },
        ),
    }
}

/// The members of an item object from `q` (before a key).
pub open spec fn item_members(
    d: Seq<u8>,
    nt: Seq<(usize, u64)>,
    q: int,
    dep: nat,
    type_uri: Option<Seq<char>>,
    desc: Option<Seq<char>>,
    meta: Option<Map<Seq<char>, OmiValueView>>,
    values: Option<Seq<ValueView>>,
    p0: int,
) -> Result<(InfoItemView, int), LiteParseError>
    decreases d.len() - q,
{
    match member_key(d, q) {
        Err(e) => Err(e),
        Ok((k, q2)) => if q < q2 <= d.len() {
            let o = scan_at(d, q2);
            let field: Result<
                (
                    Option<Seq<char>>,
                    Option<Seq<char>>,
                    Option<Map<Seq<char>, OmiValueView>>,
                    Option<Seq<ValueView>>,
                    int,
                ),
                LiteParseError,
            > = if k == "type"@ {
                match opt_string_at(d, q2, type_uri) {
                    Err(e) => Err(e),
                    Ok((x, q3)) => Ok((x, desc, meta, values, q3)),
                }
            } else if k == "desc"@ {
                match opt_string_at(d, q2, desc) {
                    Err(e) => Err(e),
                    Ok((x, q3)) => Ok((type_uri, x, meta, values, q3)),
                }
            } else if k == "meta"@ {
                match o {
                    Err(e) => Err(e),
                    Ok((Some(TokenView::Null), q3)) => Ok((type_uri, desc, meta, values, q3)),
                    _ => match meta_at(d, nt, o, outcome_pos(d, o), dep) {
                        Err(e) => Err(e),
                        Ok((x, q3)) => Ok((type_uri, desc, Some(x), values, q3)),
                    },
                }
            } else if k == "values"@ {
                match ring_at(d, nt, o, q2, dep) {
                    Err(e) => Err(e),
                    Ok((x, q3)) => Ok((type_uri, desc, meta, Some(x), q3)),
                }
            } else {
                match skip_spec(d, o, dep) {
                    Err(e) => Err(e),
                    Ok(q3) => Ok((type_uri, desc, meta, values, q3)),
                }
            };
            match field {
                Err(e) => Err(e),
                Ok((a, b, c, e2, q3)) => match member_sep(d, q3, TokenView::ObjectEnd, "',' or '}'") {
                    Err(e) => Err(e),
                    Ok((true, q4)) => if q < q4 <= d.len() {
                        item_members(d, nt, q4, dep, a, b, c, e2, p0)
                    } else {
                        Err(LiteParseError::UnexpectedEof { pos: at_pos(q4) })
                    },
                    Ok((false, q4)) => match item_finish(a, b, c, e2, p0) {
                        Err(e) => Err(e),
                        Ok(x) => Ok((x, q4)),
                    },
                },
            }
        } else {
            Err(LiteParseError::UnexpectedEof { pos: at_pos(q2) })
        },
    }
}

/// An item object from the token outcome `first`.
pub open spec fn item_at(d: Seq<u8>, nt: Seq<(usize, u64)>, first: Outcome, off: int, depth: nat) -> Result<
    (InfoItemView, int),
    LiteParseError,
> {
    match open_at(first, off, depth, TokenView::ObjectStart) {
        Err(e) => Err(e),
        Ok(q) => match scan_at(d, q) {
            Err(e) => Err(e),
            Ok((Some(TokenView::ObjectEnd), q1)) => match item_finish(None, None, None, None, q) {
                Err(e) => Err(e),
                Ok(x) => Ok((x, q1)),
            },
            Ok(_) => item_members(d, nt, q, depth + 1, None, None, None, None, q),
        },
    }
}

/// The entries of an items object from `q` (before a name), after `acc`.
pub open spec fn items_members(
    d: Seq<u8>,
    nt: Seq<(usize, u64)>,
    q: int,
    dep: nat,
    acc: Map<Seq<char>, InfoItemView>,
) -> Result<(Map<Seq<char>, InfoItemView>, int), LiteParseError>
    decreases d.len() - q,
{
    match member_key(d, q) {
        Err(e) => Err(e),
        Ok((k, q2)) => if q < q2 <= d.len() {
            match item_at(d, nt, scan_at(d, q2), q2, dep) {
                Err(e) => Err(e),
                Ok((x, q3)) => match member_sep(d, q3, TokenView::ObjectEnd, "',' or '}'") {
                    Err(e) => Err(e),
                    Ok((true, q4)) => if q < q4 <= d.len() {
                        items_members(d, nt, q4, dep, acc.insert(k, x))
                    } else {
                        Err(LiteParseError::UnexpectedEof { pos: at_pos(q4) })
                    },
                    Ok((false, q4)) => Ok((acc.insert(k, x), q4)),
                },
            }
        } else {
            Err(LiteParseError::UnexpectedEof { pos: at_pos(q2) })
        },
    }
}

/// An items object (names to items) from the token outcome `first`.
pub open spec fn items_at(d: Seq<u8>, nt: Seq<(usize, u64)>, first: Outcome, off: int, depth: nat) -> Result<
    (Map<Seq<char>, InfoItemView>, int),
    LiteParseError,
> {
    match open_at(first, off, depth, TokenView::ObjectStart) {
        Err(e) => Err(e),
        Ok(q) => match scan_at(d, q) {
            Err(e) => Err(e),
            Ok((Some(TokenView::ObjectEnd), q1)) => Ok((Map::empty(), q1)),
            Ok(_) => items_members(d, nt, q, depth + 1, Map::empty()),
        },
    }
}

/// The object whose fields were read so far (its id aside).
pub open spec fn object_finish(id: Option<Seq<char>>, acc: ObjectView, p0: int) -> Result<ObjectView, LiteParseError> {
    match id {
        None => Err(LiteParseError::MissingField { field: "id", pos: at_pos(p0) }),
        Some(i) => Ok(ObjectView { id: i, ..acc }),
    }
}

/// An object with no fields read yet.
pub open spec fn no_fields() -> ObjectView {
    ObjectView { id: Seq::empty(), type_uri: None, desc: None, items: None, objects: None }
}

/// An O-DF object from the token outcome `first`, with the lexer at `off`
/// and nesting depth `depth`.
pub open spec fn object_at(d: Seq<u8>, nt: Seq<(usize, u64)>, first: Outcome, off: int, depth: nat) -> Result<
    (ObjectView, int),
    LiteParseError,
>
    decreases d.len() - outcome_pos(d, first), 2nat,
{
    match open_at(first, off, depth, TokenView::ObjectStart) {
        Err(e) => Err(e),
        Ok(q) => if q == outcome_pos(d, first) {
            match scan_at(d, q) {
                Err(e) => Err(e),
                Ok((Some(TokenView::ObjectEnd), q1)) => match object_finish(None, no_fields(), q) {
                    Err(e) => Err(e),
                    Ok(x) => Ok((x, q1)),
                },
                Ok(_) => object_members(d, nt, q, depth + 1, None, no_fields(), q),
            }
        } else {
            Err(LiteParseError::UnexpectedEof { pos: at_pos(q) })
        },
    }
}

/// The members of an object from `q` (before a key).
pub open spec fn object_members(
    d: Seq<u8>,
    nt: Seq<(usize, u64)>,
    q: int,
    dep: nat,
    id: Option<Seq<char>>,
    acc: ObjectView,
    p0: int,
) -> Result<(ObjectView, int), LiteParseError>
    decreases d.len() - q, 1nat,
{
    match member_key(d, q) {
        Err(e) => Err(e),
        Ok((k, q2)) => if q < q2 <= d.len() && q2 <= outcome_pos(d, scan_at(d, q2)) <= d.len() {
            let o = scan_at(d, q2);
            let field: Result<(Option<Seq<char>>, ObjectView, int), LiteParseError> = if k == "id"@ {
                match string_at(o) {
                    Err(e) => Err(e),
                    Ok((x, q3)) => Ok((Some(x), acc, q3)),
                }
            } else if k == "type"@ {
                match opt_string_at(d, q2, acc.type_uri) {
                    Err(e) => Err(e),
                    Ok((x, q3)) => Ok((id, ObjectView { type_uri: x, ..acc }, q3)),
                }
            } else if k == "desc"@ {
                match opt_string_at(d, q2, acc.desc) {
                    Err(e) => Err(e),
                    Ok((x, q3)) => Ok((id, ObjectView { desc: x, ..acc }, q3)),
                }
            } else if k == "items"@ {
                match o {
                    Err(e) => Err(e),
                    Ok((Some(TokenView::Null), q3)) => Ok((id, acc, q3)),
                    _ => match items_at(d, nt, o, outcome_pos(d, o), dep) {
                        Err(e) => Err(e),
                        Ok((x, q3)) => Ok((id, ObjectView { items: Some(x), ..acc }, q3)),
                    },
                }
            } else if k == "objects"@ {
                match o {
                    Err(e) => Err(e),
                    Ok((Some(TokenView::Null), q3)) => Ok((id, acc, q3)),
                    _ => match objects_at(d, nt, o, outcome_pos(d, o), dep) {
                        Err(e) => Err(e),
                        Ok((x, q3)) => Ok((id, ObjectView { objects: Some(x), ..acc }, q3)),
                    },
                }
            } else {
                match skip_spec(d, o, dep) {
                    Err(e) => Err(e),
                    Ok(q3) => Ok((id, acc, q3)),
                }
            };
            match field {
                Err(e) => Err(e),
                Ok((id2, acc2, q3)) => match member_sep(d, q3, TokenView::ObjectEnd, "',' or '}'") {
                    Err(e) => Err(e),
                    Ok((true, q4)) => if q < q4 <= d.len() {
                        object_members(d, nt, q4, dep, id2, acc2, p0)
                    } else {
                        Err(LiteParseError::UnexpectedEof { pos: at_pos(q4) })
                    },
                    Ok((false, q4)) => match object_finish(id2, acc2, p0) {
                        Err(e) => Err(e),
                        Ok(x) => Ok((x, q4)),
                    },
                },
            }
        } else {
            Err(LiteParseError::UnexpectedEof { pos: at_pos(q2) })
        },
    }
}

/// An objects object (names to objects) from the token outcome `first`.
pub open spec fn objects_at(d: Seq<u8>, nt: Seq<(usize, u64)>, first: Outcome, off: int, depth: nat) -> Result<
    (Map<Seq<char>, ObjectView>, int),
    LiteParseError,
>
    decreases d.len() - outcome_pos(d, first), 2nat,
{
    match open_at(first, off, depth, TokenView::ObjectStart) {
        Err(e) => Err(e),
        Ok(q) => if q == outcome_pos(d, first) {
            match scan_at(d, q) {
                Err(e) => Err(e),
                Ok((Some(TokenView::ObjectEnd), q1)) => Ok((Map::empty(), q1)),
                Ok(_) => objects_members(d, nt, q, depth + 1, Map::empty()),
            }
        } else {
            Err(LiteParseError::UnexpectedEof { pos: at_pos(q) })
        },
    }
}

/// The entries of an objects object from `q` (before a name), after `acc`.
pub open spec fn objects_members(
    d: Seq<u8>,
    nt: Seq<(usize, u64)>,
    q: int,
    dep: nat,
    acc: Map<Seq<char>, ObjectView>,
) -> Result<(Map<Seq<char>, ObjectView>, int), LiteParseError>
    decreases d.len() - q, 1nat,
{
    match member_key(d, q) {
        Err(e) => Err(e),
        Ok((k, q2)) => if q < q2 <= d.len() && q2 <= outcome_pos(d, scan_at(d, q2)) <= d.len() {
            match object_at(d, nt, scan_at(d, q2), q2, dep) {
                Err(e) => Err(e),
                Ok((x, q3)) => match member_sep(d, q3, TokenView::ObjectEnd, "',' or '}'") {
                    Err(e) => Err(e),
                    Ok((true, q4)) => if q < q4 <= d.len() {
                        objects_members(d, nt, q4, dep, acc.insert(k, x))
                    } else {
                        Err(LiteParseError::UnexpectedEof { pos: at_pos(q4) })
                    },
                    Ok((false, q4)) => Ok((acc.insert(k, x), q4)),
                },
            }
        } else {
            Err(LiteParseError::UnexpectedEof { pos: at_pos(q2) })
        },
    }
}

/// A token that stands for a number.
pub open spec fn is_number_token(t: TokenView) -> bool {
    t is Number || t is Integer
}

/// The number tokens met lexing `d` from `p`, up to its end or the first
/// lexical error, each with the offset at which it ends.
pub open spec fn number_tokens_from(d: Seq<u8>, p: int) -> Seq<(int, TokenView)>
    decreases d.len() - p,
{
    match scan_at(d, p) {
        Ok((Some(t), q)) => if p < q <= d.len() {
            if is_number_token(t) {
                seq![(q, t)] + number_tokens_from(d, q)
            } else {
                number_tokens_from(d, q)
            }
        } else {
            Seq::empty()
        },
        _ => Seq::empty(),
    }
}

/// A whole input holding one value: the value read from the start, with
/// nothing but whitespace after it.
pub open spec fn whole_input<V>(d: Seq<u8>, r: Result<(V, int), LiteParseError>) -> Result<V, LiteParseError> {
    match r {
        Err(e) => Err(e),
        Ok((x, q)) => if ws_end(d, q) >= d.len() {
            Ok(x)
        } else {
            Err(LiteParseError::TrailingData { pos: at_pos(ws_end(d, q)) })
        },
    }
}

/// A history read from an array keeps the array's order as newest first:
/// asking it for its `n` newest values gives the array's first `n`.
pub proof fn law_history_newest_first(vs: Seq<ValueView>, n: nat)
    ensures
        newest_of(vs.reverse(), n) == vs.subrange(
            0,
            if n < vs.len() {
                n as int
            } else {
                vs.len() as int
            },
        ),
{
    let take = if n < vs.len() {
        n as int
    } else {
        vs.len() as int
    };
    let c = vs.reverse();
    let got = newest_of(c, n);
    assert forall|j: int| 0 <= j < take implies got[j] == vs[j] by {
        assert(got[j] == c[c.len() - 1 - j]);
    }
    assert(got =~= vs.subrange(0, take));
}

} // verus!
