//! What parsing an O-MI message gives, stated token by token over the
//! lexer's model. Numbers come through two tables handed to the parser: the
//! bits of each number token's double, and, for number tokens that denote a
//! whole number, that number.

use vstd::prelude::*;
use super::error::{lite_to_omi, LiteParseError, ParseErrorView};
use super::lexer::{at_pos, kind_str, same_kind, scan_at, ws_end, TokenView};
use super::odf_spec::{member_key, member_sep, num_bits, number_at, objects_at, omi_value_at, string_at, Outcome};
use super::parser::skip_spec;
use crate::odf::OmiValueView;
use crate::omi::{
    ItemStatusView, OmiMessageView, OperationView, ReadOpView, ResponseBodyView, ResponseResultView, ResultPayloadView,
    WriteItemView, WriteOpView,
};
use crate::text::{ascii_chars, decimal_digits};

verus! {

/// The whole number that the table gives for the number token ending at
/// `q`: the first entry with that offset.
pub open spec fn whole_at(wt: Seq<(usize, i64)>, q: int) -> Option<i64>
    decreases wt.len(),
{
    if wt.len() == 0 {
        None
    } else if wt[0].0 == q {
        Some(wt[0].1)
    } else {
        whole_at(wt.drop_first(), q)
    }
}

/// An integer from the token outcome `first`: an integer token, or a number
/// token that the table gives a whole number for.
pub open spec fn int_at(wt: Seq<(usize, i64)>, first: Outcome) -> Result<(i64, int), LiteParseError> {
    match first {
        Err(e) => Err(e),
        Ok((Some(TokenView::Integer(i)), q)) => Ok((i, q)),
        Ok((Some(TokenView::Number(_)), q)) => match whole_at(wt, q) {
            Some(i) => Ok((i, q)),
            None => Err(LiteParseError::ExpectedToken { expected: "integer", pos: at_pos(q) }),
        },
        Ok((_, q)) => Err(LiteParseError::ExpectedToken { expected: "integer", pos: at_pos(q) }),
    }
}

/// A non-negative integer from the token outcome `first`.
pub open spec fn uint_at(wt: Seq<(usize, i64)>, first: Outcome) -> Result<(u64, int), LiteParseError> {
    match int_at(wt, first) {
        Err(e) => Err(e),
        Ok((i, q)) => if i < 0 {
            Err(LiteParseError::ExpectedToken { expected: "non-negative integer", pos: at_pos(q) })
        } else {
            Ok((i as u64, q))
        },
    }
}

/// A status code from the token outcome `first`; `expected` names it in
/// the error for a value above 65535.
pub open spec fn status_at(wt: Seq<(usize, i64)>, first: Outcome, expected: &'static str) -> Result<
    (u16, int),
    LiteParseError,
> {
    match uint_at(wt, first) {
        Err(e) => Err(e),
        Ok((n, q)) => if n > 65535 {
            Err(LiteParseError::ExpectedToken { expected, pos: at_pos(q) })
        } else {
            Ok((n as u16, q))
        },
    }
}

/// The position after an opening token of kind `start` taken at `q`.
pub open spec fn opened(d: Seq<u8>, q: int, start: TokenView) -> Result<int, LiteParseError> {
    match scan_at(d, q) {
        Err(e) => Err(e),
        Ok((None, q1)) => Err(LiteParseError::UnexpectedEof { pos: at_pos(q1) }),
        Ok((Some(t), q1)) => if same_kind(t, start) {
            Ok(q1)
        } else {
            Err(LiteParseError::ExpectedToken { expected: kind_str(start), pos: at_pos(q1) })
        },
    }
}

/// The members of an object from `q` (before a key), each read by `field`
/// into the accumulated `acc`; lexical errors between members are taken
/// through `lift`. The result and the position after the closing `}`.
pub open spec fn members<A, E>(
    d: Seq<u8>,
    q: int,
    acc: A,
    field: spec_fn(Seq<char>, int, A) -> Result<(A, int), E>,
    lift: spec_fn(LiteParseError) -> E,
) -> Result<(A, int), E>
    decreases d.len() - q,
{
    match member_key(d, q) {
        Err(e) => Err(lift(e)),
        Ok((k, q2)) => if q < q2 <= d.len() {
            match field(k, q2, acc) {
                Err(e) => Err(e),
                Ok((a2, q3)) => match member_sep(d, q3, TokenView::ObjectEnd, "',' or '}'") {
                    Err(e) => Err(lift(e)),
                    Ok((true, q4)) => if q < q4 <= d.len() {
                        members(d, q4, a2, field, lift)
                    } else {
                        Err(lift(LiteParseError::UnexpectedEof { pos: at_pos(q4) }))
                    },
                    Ok((false, q4)) => Ok((a2, q4)),
                },
            }
        } else {
            Err(lift(LiteParseError::UnexpectedEof { pos: at_pos(q2) }))
        },
    }
}

/// The members of an object whose `{` ends at `q`.
pub open spec fn fields_body<A, E>(
    d: Seq<u8>,
    q: int,
    acc: A,
    field: spec_fn(Seq<char>, int, A) -> Result<(A, int), E>,
    lift: spec_fn(LiteParseError) -> E,
) -> Result<(A, int), E> {
    match scan_at(d, q) {
        Err(e) => Err(lift(e)),
        Ok((Some(TokenView::ObjectEnd), q1)) => Ok((acc, q1)),
        Ok(_) => members(d, q, acc, field, lift),
    }
}

/// The elements of an array from `q` (before an element), each read by
/// `elem`, after those in `acc`; the position after the closing `]`.
pub open spec fn array_elems<A>(
    d: Seq<u8>,
    q: int,
    acc: Seq<A>,
    elem: spec_fn(int) -> Result<(A, int), LiteParseError>,
) -> Result<(Seq<A>, int), LiteParseError>
    decreases d.len() - q,
{
    match elem(q) {
        Err(e) => Err(e),
        Ok((x, q3)) => if q < q3 <= d.len() {
            match member_sep(d, q3, TokenView::ArrayEnd, "',' or ']'") {
                Err(e) => Err(e),
                Ok((true, q4)) => if q < q4 <= d.len() {
                    array_elems(d, q4, acc.push(x), elem)
                } else {
                    Err(LiteParseError::UnexpectedEof { pos: at_pos(q4) })
                },
                Ok((false, q4)) => Ok((acc.push(x), q4)),
            }
        } else {
            Err(LiteParseError::UnexpectedEof { pos: at_pos(q3) })
        },
    }
}

/// An array whose `[` is taken at `q`.
pub open spec fn array_at<A>(d: Seq<u8>, q: int, elem: spec_fn(int) -> Result<(A, int), LiteParseError>) -> Result<
    (Seq<A>, int),
    LiteParseError,
> {
    match opened(d, q, TokenView::ArrayStart) {
        Err(e) => Err(e),
        Ok(q1) => match scan_at(d, q1) {
            Err(e) => Err(e),
            Ok((Some(TokenView::ArrayEnd), q2)) => Ok((Seq::empty(), q2)),
            Ok(_) => array_elems(d, q1, Seq::empty(), elem),
        },
    }
}

/// A string element at `q`.
pub open spec fn string_elem(d: Seq<u8>) -> spec_fn(int) -> Result<(Seq<char>, int), LiteParseError> {
    |q: int| string_at(scan_at(d, q))
}

/// Skipping an unknown member's value at `q2`.
pub open spec fn skipped<A>(d: Seq<u8>, q2: int, acc: A) -> Result<(A, int), LiteParseError> {
    match skip_spec(d, scan_at(d, q2), 0) {
        Err(e) => Err(e),
        Ok(q3) => Ok((acc, q3)),
    }
}

/// The fields of a read operation.
pub open spec fn read_field(d: Seq<u8>, nt: Seq<(usize, u64)>, wt: Seq<(usize, i64)>) -> spec_fn(
    Seq<char>,
    int,
    ReadOpView,
) -> Result<(ReadOpView, int), LiteParseError> {
    |k: Seq<char>, q2: int, a: ReadOpView|
        {
            let o = scan_at(d, q2);
            if k == "path"@ {
                match string_at(o) {
                    Err(e) => Err(e),
                    Ok((x, q3)) => Ok((ReadOpView { path: Some(x), ..a }, q3)),
                }
            } else if k == "rid"@ {
                match string_at(o) {
                    Err(e) => Err(e),
                    Ok((x, q3)) => Ok((ReadOpView { rid: Some(x), ..a }, q3)),
                }
            } else if k == "newest"@ {
                match uint_at(wt, o) {
                    Err(e) => Err(e),
                    Ok((x, q3)) => Ok((ReadOpView { newest: Some(x), ..a }, q3)),
                }
            } else if k == "oldest"@ {
                match uint_at(wt, o) {
                    Err(e) => Err(e),
                    Ok((x, q3)) => Ok((ReadOpView { oldest: Some(x), ..a }, q3)),
                }
            } else if k == "begin"@ {
                match number_at(nt, o) {
                    Err(e) => Err(e),
                    Ok((x, q3)) => Ok((ReadOpView { begin: Some(x), ..a }, q3)),
                }
            } else if k == "end"@ {
                match number_at(nt, o) {
                    Err(e) => Err(e),
                    Ok((x, q3)) => Ok((ReadOpView { end: Some(x), ..a }, q3)),
                }
            } else if k == "depth"@ {
                match uint_at(wt, o) {
                    Err(e) => Err(e),
                    Ok((x, q3)) => Ok((ReadOpView { depth: Some(x), ..a }, q3)),
                }
            } else if k == "interval"@ {
                match number_at(nt, o) {
                    Err(e) => Err(e),
                    Ok((x, q3)) => Ok((ReadOpView { interval: Some(x), ..a }, q3)),
                }
            } else if k == "callback"@ {
                match string_at(o) {
                    Err(e) => Err(e),
                    Ok((x, q3)) => Ok((ReadOpView { callback: Some(x), ..a }, q3)),
                }
            } else {
                skipped(d, q2, a)
            }
        }
}

/// A read operation with no field read yet.
pub open spec fn no_read_fields() -> ReadOpView {
    ReadOpView {
        path: None,
        rid: None,
        newest: None,
        oldest: None,
        begin: None,
        end: None,
        depth: None,
        interval: None,
        callback: None,
    }
}

/// Lexical errors kept as they are (as a function value).
pub open spec fn lift_lite() -> spec_fn(LiteParseError) -> LiteParseError {
    |e: LiteParseError| e
}

/// Lexical errors as O-MI errors (as a function value).
pub open spec fn lift_omi() -> spec_fn(LiteParseError) -> ParseErrorView {
    |e: LiteParseError| lite_to_omi(e)
}

/// An operation object at `q`, read field by field.
pub open spec fn op_fields<A>(
    d: Seq<u8>,
    q: int,
    acc: A,
    field: spec_fn(Seq<char>, int, A) -> Result<(A, int), LiteParseError>,
) -> Result<(A, int), ParseErrorView> {
    match opened(d, q, TokenView::ObjectStart) {
        Err(e) => Err(lite_to_omi(e)),
        Ok(q1) => match fields_body(d, q1, acc, field, lift_lite()) {
            Err(e) => Err(lite_to_omi(e)),
            Ok(r) => Ok(r),
        },
    }
}

/// A read operation at `q`: a path and a subscription id exclude each other.
pub open spec fn read_at(d: Seq<u8>, nt: Seq<(usize, u64)>, wt: Seq<(usize, i64)>, q: int) -> Result<
    (ReadOpView, int),
    ParseErrorView,
> {
    match op_fields(d, q, no_read_fields(), read_field(d, nt, wt)) {
        Err(e) => Err(e),
        Ok((r, q3)) => if r.path is Some && r.rid is Some {
            Err(ParseErrorView::MutuallyExclusive("path", "rid"))
        } else {
            Ok((r, q3))
        },
    }
}

/// The fields of one written item read so far.
pub type ItemFields = (Option<Seq<char>>, Option<OmiValueView>, Option<u64>);

/// The fields of a written item.
pub open spec fn write_item_field(d: Seq<u8>, nt: Seq<(usize, u64)>) -> spec_fn(Seq<char>, int, ItemFields) -> Result<
    (ItemFields, int),
    LiteParseError,
> {
    |k: Seq<char>, q2: int, a: ItemFields|
        {
            let o = scan_at(d, q2);
            if k == "path"@ {
                match string_at(o) {
                    Err(e) => Err(e),
                    Ok((x, q3)) => Ok(((Some(x), a.1, a.2), q3)),
                }
            } else if k == "v"@ {
                match omi_value_at(nt, o) {
                    Err(e) => Err(e),
                    Ok((x, q3)) => Ok(((a.0, Some(x), a.2), q3)),
                }
            } else if k == "t"@ {
                match number_at(nt, o) {
                    Err(e) => Err(e),
                    Ok((x, q3)) => Ok(((a.0, a.1, Some(x)), q3)),
                }
            } else {
                skipped(d, q2, a)
            }
        }
}

/// A written item object at `q`: a path and a value are required.
pub open spec fn write_item_at(d: Seq<u8>, nt: Seq<(usize, u64)>) -> spec_fn(int) -> Result<
    (WriteItemView, int),
    LiteParseError,
> {
    |q: int|
        match opened(d, q, TokenView::ObjectStart) {
            Err(e) => Err(e),
            Ok(q1) => match fields_body(
                d,
                q1,
                (None, None, None),
                write_item_field(d, nt),
                lift_lite(),
            ) {
                Err(e) => Err(e),
                Ok((a, q3)) => match a.0 {
                    None => Err(LiteParseError::MissingField { field: "path", pos: at_pos(q1) }),
                    Some(path) => match a.1 {
                        None => Err(LiteParseError::MissingField { field: "v", pos: at_pos(q1) }),
                        Some(v) => Ok((WriteItemView { path, v, t: a.2 }, q3)),
                    },
                },
            },
        }
}

/// The fields of a write operation read so far: path, value, time, items
/// and objects.
pub type WriteFields = (
    Option<Seq<char>>,
    Option<OmiValueView>,
    Option<u64>,
    Option<Seq<WriteItemView>>,
    Option<Map<Seq<char>, crate::odf::object::ObjectView>>,
);

/// The fields of a write operation.
pub open spec fn write_field(d: Seq<u8>, nt: Seq<(usize, u64)>) -> spec_fn(Seq<char>, int, WriteFields) -> Result<
    (WriteFields, int),
    LiteParseError,
> {
    |k: Seq<char>, q2: int, a: WriteFields|
        {
            let o = scan_at(d, q2);
            if k == "path"@ {
                match string_at(o) {
                    Err(e) => Err(e),
                    Ok((x, q3)) => Ok(((Some(x), a.1, a.2, a.3, a.4), q3)),
                }
            } else if k == "v"@ {
                match omi_value_at(nt, o) {
                    Err(e) => Err(e),
                    Ok((x, q3)) => Ok(((a.0, Some(x), a.2, a.3, a.4), q3)),
                }
            } else if k == "t"@ {
                match number_at(nt, o) {
                    Err(e) => Err(e),
                    Ok((x, q3)) => Ok(((a.0, a.1, Some(x), a.3, a.4), q3)),
                }
            } else if k == "items"@ {
                match array_at(d, q2, write_item_at(d, nt)) {
                    Err(e) => Err(e),
                    Ok((x, q3)) => Ok(((a.0, a.1, a.2, Some(x), a.4), q3)),
                }
            } else if k == "objects"@ {
                match objects_at(d, nt, o, q2, 0) {
                    Err(e) => Err(e),
                    Ok((x, q3)) => Ok(((a.0, a.1, a.2, a.3, Some(x)), q3)),
                }
            } else {
                skipped(d, q2, a)
            }
        }
}

/// The write operation that the fields make: exactly one of a value, items
/// and objects; a path for a single value and for a tree; items not empty.
pub open spec fn write_finish(a: WriteFields) -> Result<WriteOpView, ParseErrorView> {
    let has_v = a.1 is Some;
    let has_items = a.3 is Some;
    let has_objects = a.4 is Some;
    if !has_v && !has_items && !has_objects {
        Err(ParseErrorView::MissingField("v, items, or objects"))
    } else if has_v && has_items {
        Err(ParseErrorView::MutuallyExclusive("v", "items"))
    } else if has_v && has_objects {
        Err(ParseErrorView::MutuallyExclusive("v", "objects"))
    } else if has_items && has_objects {
        Err(ParseErrorView::MutuallyExclusive("items", "objects"))
    } else if has_v {
        match a.0 {
            None => Err(ParseErrorView::MissingField("path")),
            Some(path) => Ok(WriteOpView::Single { path, v: a.1->0, t: a.2 }),
        }
    } else if has_items {
        if a.3->0.len() == 0 {
            Err(
                ParseErrorView::InvalidField {
                    field: "items",
                    reason: "items array must not be empty"@,
                },
            )
        } else {
            Ok(WriteOpView::Batch { items: a.3->0 })
        }
    } else {
        match a.0 {
            None => Err(ParseErrorView::MissingField("path")),
            Some(path) => Ok(WriteOpView::Tree { path, objects: a.4->0 }),
        }
    }
}

/// A write operation at `q`.
pub open spec fn write_at(d: Seq<u8>, nt: Seq<(usize, u64)>, q: int) -> Result<(WriteOpView, int), ParseErrorView> {
    match op_fields(d, q, (None, None, None, None, None), write_field(d, nt)) {
        Err(e) => Err(e),
        Ok((a, q3)) => match write_finish(a) {
            Err(e) => Err(e),
            Ok(w) => Ok((w, q3)),
        },
    }
}

/// The fields of a delete or cancel operation (one wanted field, `name`,
/// read by `read`).
pub open spec fn one_field<A>(
    d: Seq<u8>,
    name: Seq<char>,
    read: spec_fn(int) -> Result<(A, int), LiteParseError>,
) -> spec_fn(Seq<char>, int, Option<A>) -> Result<(Option<A>, int), LiteParseError> {
    |k: Seq<char>, q2: int, a: Option<A>|
        if k == name {
            match read(q2) {
                Err(e) => Err(e),
                Ok((x, q3)) => Ok((Some(x), q3)),
            }
        } else {
            skipped(d, q2, a)
        }
}

/// A delete operation at `q`: a path is required, and the root cannot be
/// deleted.
pub open spec fn delete_at(d: Seq<u8>, q: int) -> Result<(Seq<char>, int), ParseErrorView> {
    match op_fields(d, q, None, one_field(d, "path"@, string_elem(d))) {
        Err(e) => Err(e),
        Ok((None, _)) => Err(ParseErrorView::MissingField("path")),
        Ok((Some(p), q3)) => if p == "/"@ {
            Err(ParseErrorView::InvalidField { field: "path", reason: "cannot delete the root"@ })
        } else {
            Ok((p, q3))
        },
    }
}

/// A string array at `q`.
pub open spec fn strings_at(d: Seq<u8>) -> spec_fn(int) -> Result<(Seq<Seq<char>>, int), LiteParseError> {
    |q: int| array_at(d, q, string_elem(d))
}

/// A cancel operation at `q`: the subscription ids, which may not be none.
pub open spec fn cancel_at(d: Seq<u8>, q: int) -> Result<(Seq<Seq<char>>, int), ParseErrorView> {
    match op_fields(d, q, None, one_field(d, "rid"@, strings_at(d))) {
        Err(e) => Err(e),
        Ok((None, _)) => Err(ParseErrorView::MissingField("rid")),
        Ok((Some(r), q3)) => if r.len() == 0 {
            Err(ParseErrorView::InvalidField { field: "rid", reason: "rid array must not be empty"@ })
        } else {
            Ok((r, q3))
        },
    }
}

/// The fields of an item status read so far: path, status and description.
pub type StatusFields = (Option<Seq<char>>, Option<u16>, Option<Seq<char>>);

/// The fields of an item status.
pub open spec fn status_field(d: Seq<u8>, wt: Seq<(usize, i64)>) -> spec_fn(Seq<char>, int, StatusFields) -> Result<
    (StatusFields, int),
    LiteParseError,
> {
    |k: Seq<char>, q2: int, a: StatusFields|
        {
            let o = scan_at(d, q2);
            if k == "path"@ {
                match string_at(o) {
                    Err(e) => Err(e),
                    Ok((x, q3)) => Ok(((Some(x), a.1, a.2), q3)),
                }
            } else if k == "status"@ {
                match status_at(wt, o, "status code") {
                    Err(e) => Err(e),
                    Ok((x, q3)) => Ok(((a.0, Some(x), a.2), q3)),
                }
            } else if k == "desc"@ {
                match string_at(o) {
                    Err(e) => Err(e),
                    Ok((x, q3)) => Ok(((a.0, a.1, Some(x)), q3)),
                }
            } else {
                skipped(d, q2, a)
            }
        }
}

/// An item status object at `q`: a path and a status are required.
pub open spec fn item_status_at(d: Seq<u8>, wt: Seq<(usize, i64)>) -> spec_fn(int) -> Result<
    (ItemStatusView, int),
    LiteParseError,
> {
    |q: int|
        match opened(d, q, TokenView::ObjectStart) {
            Err(e) => Err(e),
            Ok(q1) => match fields_body(d, q1, (None, None, None), status_field(d, wt), lift_lite()) {
                Err(e) => Err(e),
                Ok((a, q3)) => match a.0 {
                    None => Err(LiteParseError::MissingField { field: "path", pos: at_pos(q1) }),
                    Some(path) => match a.1 {
                        None => Err(LiteParseError::MissingField { field: "status", pos: at_pos(q1) }),
                        Some(status) => Ok((ItemStatusView { path, status, desc: a.2 }, q3)),
                    },
                },
            },
        }
}

/// A response result at `q`: an array of item statuses, or any other value,
/// skipped.
pub open spec fn result_at(d: Seq<u8>, wt: Seq<(usize, i64)>, q: int) -> Result<(ResponseResultView, int), LiteParseError> {
    match scan_at(d, q) {
        Err(e) => Err(e),
        Ok((Some(TokenView::ArrayStart), _)) => match array_at(d, q, item_status_at(d, wt)) {
            Err(e) => Err(e),
            Ok((s, q3)) => Ok((ResponseResultView::Batch(s), q3)),
        },
        _ => match skip_spec(d, scan_at(d, q), 0) {
            Err(e) => Err(e),
            Ok(q3) => Ok((ResponseResultView::Single(ResultPayloadView::Null), q3)),
        },
    }
}

/// The fields of a response body read so far.
pub type ResponseFields = (Option<u16>, Option<Seq<char>>, Option<Seq<char>>, Option<ResponseResultView>);

/// The fields of a response body.
pub open spec fn response_field(d: Seq<u8>, wt: Seq<(usize, i64)>) -> spec_fn(Seq<char>, int, ResponseFields) -> Result<
    (ResponseFields, int),
    LiteParseError,
> {
    |k: Seq<char>, q2: int, a: ResponseFields|
        {
            let o = scan_at(d, q2);
            if k == "status"@ {
                match status_at(wt, o, "status code (0..65535)") {
                    Err(e) => Err(e),
                    Ok((x, q3)) => Ok(((Some(x), a.1, a.2, a.3), q3)),
                }
            } else if k == "rid"@ {
                match string_at(o) {
                    Err(e) => Err(e),
                    Ok((x, q3)) => Ok(((a.0, Some(x), a.2, a.3), q3)),
                }
            } else if k == "desc"@ {
                match string_at(o) {
                    Err(e) => Err(e),
                    Ok((x, q3)) => Ok(((a.0, a.1, Some(x), a.3), q3)),
                }
            } else if k == "result"@ {
                match result_at(d, wt, q2) {
                    Err(e) => Err(e),
                    Ok((x, q3)) => Ok(((a.0, a.1, a.2, Some(x)), q3)),
                }
            } else {
                skipped(d, q2, a)
            }
        }
}

/// A response body at `q`: a status is required.
pub open spec fn response_at(d: Seq<u8>, wt: Seq<(usize, i64)>, q: int) -> Result<
    (ResponseBodyView, int),
    ParseErrorView,
> {
    match op_fields(d, q, (None, None, None, None), response_field(d, wt)) {
        Err(e) => Err(e),
        Ok((a, q3)) => match a.0 {
            None => Err(ParseErrorView::MissingField("status")),
            Some(status) => Ok((ResponseBodyView { status, rid: a.1, desc: a.2, result: a.3 }, q3)),
        },
    }
}

/// Which operation keys were seen: read, write, delete, cancel, response.
pub type Seen = (bool, bool, bool, bool, bool);

/// How many kinds of operation were seen.
pub open spec fn seen_count(s: Seen) -> usize {
    ((if s.0 { 1int } else { 0int }) + (if s.1 { 1int } else { 0int }) + (if s.2 { 1int } else { 0int }) + (
    if s.3 { 1int } else { 0int }) + (if s.4 { 1int } else { 0int })) as usize
}

/// The envelope read so far: version, time to live, the last operation read
/// and the kinds of operation seen.
pub type EnvFields = (Option<Seq<char>>, Option<i64>, Option<OperationView>, Seen);

/// The members of a message envelope.
#[verifier::opaque]
pub open spec fn envelope_field(d: Seq<u8>, nt: Seq<(usize, u64)>, wt: Seq<(usize, i64)>) -> spec_fn(
    Seq<char>,
    int,
    EnvFields,
) -> Result<(EnvFields, int), ParseErrorView> {
    |k: Seq<char>, q2: int, a: EnvFields|
        {
            let o = scan_at(d, q2);
            let s = a.3;
            if k == "omi"@ {
                match string_at(o) {
                    Err(e) => Err(lite_to_omi(e)),
                    Ok((x, q3)) => Ok(((Some(x), a.1, a.2, a.3), q3)),
                }
            } else if k == "ttl"@ {
                match int_at(wt, o) {
                    Err(e) => Err(lite_to_omi(e)),
                    Ok((x, q3)) => Ok(((a.0, Some(x), a.2, a.3), q3)),
                }
            } else if k == "read"@ {
                match read_at(d, nt, wt, q2) {
                    Err(e) => Err(e),
                    Ok((x, q3)) => Ok(((a.0, a.1, Some(OperationView::Read(x)), (true, s.1, s.2, s.3, s.4)), q3)),
                }
            } else if k == "write"@ {
                match write_at(d, nt, q2) {
                    Err(e) => Err(e),
                    Ok((x, q3)) => Ok(((a.0, a.1, Some(OperationView::Write(x)), (s.0, true, s.2, s.3, s.4)), q3)),
                }
            } else if k == "delete"@ {
                match delete_at(d, q2) {
                    Err(e) => Err(e),
                    Ok((x, q3)) => Ok(((a.0, a.1, Some(OperationView::Delete(x)), (s.0, s.1, true, s.3, s.4)), q3)),
                }
            } else if k == "cancel"@ {
                match cancel_at(d, q2) {
                    Err(e) => Err(e),
                    Ok((x, q3)) => Ok(((a.0, a.1, Some(OperationView::Cancel(x)), (s.0, s.1, s.2, true, s.4)), q3)),
                }
            } else if k == "response"@ {
                match response_at(d, wt, q2) {
                    Err(e) => Err(e),
                    Ok((x, q3)) => Ok(((a.0, a.1, Some(OperationView::Response(x)), (s.0, s.1, s.2, s.3, true)), q3)),
                }
            } else {
                match skip_spec(d, o, 0) {
                    Err(e) => Err(lite_to_omi(e)),
                    Ok(q3) => Ok((a, q3)),
                }
            }
        }
}

/// The message that a read envelope makes: version 1.0, a time to live, and
/// exactly one kind of operation.
pub open spec fn envelope_finish(a: EnvFields) -> Result<OmiMessageView, ParseErrorView> {
    match a.0 {
        None => Err(ParseErrorView::MissingField("omi")),
        Some(v) => if v != "1.0"@ {
            Err(ParseErrorView::UnsupportedVersion(v))
        } else {
            match a.1 {
                None => Err(ParseErrorView::MissingField("ttl")),
                Some(ttl) => if seen_count(a.3) != 1 {
                    Err(ParseErrorView::InvalidOperationCount(seen_count(a.3)))
                } else {
                    Ok(OmiMessageView { version: v, ttl, operation: a.2->0 })
                },
            }
        },
    }
}

/// An envelope with nothing read yet.
pub open spec fn no_env_fields() -> EnvFields {
    (None, None, None, (false, false, false, false, false))
}

/// The O-MI message in `d`, read from its start: one JSON object, with only
/// whitespace after it.
pub open spec fn omi_message_at(d: Seq<u8>, nt: Seq<(usize, u64)>, wt: Seq<(usize, i64)>) -> Result<
    OmiMessageView,
    ParseErrorView,
> {
    match opened(d, 0, TokenView::ObjectStart) {
        Err(e) => Err(lite_to_omi(e)),
        Ok(q1) => match fields_body(d, q1, no_env_fields(), envelope_field(d, nt, wt), lift_omi()) {
            Err(e) => Err(e),
            Ok((a, q)) => match envelope_finish(a) {
                Err(e) => Err(e),
                Ok(m) => if ws_end(d, q) >= d.len() {
                    Ok(m)
                } else {
                    Err(
                        ParseErrorView::InvalidJson(
                            "trailing content at byte "@ + ascii_chars(decimal_digits(ws_end(d, q) as nat)),
                        ),
                    )
                },
            },
        },
    }
}

} // verus!
