//! What the JSON writers put in their output, stated over the bytes: each
//! field that is present stands there as a member `"key":value`, closed off
//! by a comma or the object's closing brace.

use vstd::prelude::*;
use vstd::string::*;
use crate::json::serializer::{close_step, key_step, open_step, opt_str_field, pre_value, quoted, value_step, JsonState};
use crate::json::odf_writer::{children_json, info_item_json, items_json, meta_json, object_json, number_step, omi_value_json, opt_number, opt_raw_field,
    ring_json, value_array_json, value_json, values_json};
use crate::odf::object::{InfoItem, Object};
use crate::odf::value::ValueView;
use crate::odf::{OmiValue, OmiValueView};
use vstd::utf8::encode_utf8;
use crate::json::omi_writer::{item_status_json, message_json, operation_json, operation_key, opt_u64_field,
    path_value_json, payload_json, read_body_json, response_json, result_json, statuses_json, tree_write_json,
    write_op_json};
use crate::json::serializer::{envelope_open, i64_text, response_open, strings_step, ToJson};
use crate::omi::{CancelOp, DeleteOp, ItemStatus, OmiMessage, Operation, ResponseBody, ResponseResult,
    ResultPayload, WriteItem, WriteOp};
use crate::text;

verus! {

/// `p` stands in `out` at position `k`.
pub open spec fn occurs_at(out: Seq<u8>, k: int, p: Seq<u8>) -> bool {
    &&& 0 <= k
    &&& k + p.len() <= out.len()
    &&& out.subrange(k, k + p.len()) == p
}

/// The bytes of an object member: the quoted key, a colon and the value.
pub open spec fn member_bytes(key: Seq<u8>, value: Seq<u8>) -> Seq<u8> {
    quoted(key) + seq![58u8] + value
}

/// `out` holds, at or after position `from`, the member `"key":value`,
/// followed by a comma or a closing brace.
pub open spec fn has_member(out: Seq<u8>, from: int, key: Seq<u8>, value: Seq<u8>) -> bool {
    exists|k: int|
        #![trigger occurs_at(out, k, member_bytes(key, value))]
        from <= k && occurs_at(out, k, member_bytes(key, value)) && k + member_bytes(key, value).len()
            < out.len() && (out[k + member_bytes(key, value).len()] == 44u8 || out[k + member_bytes(
            key,
            value,
        ).len()] == 125u8)
}

/// Like [`has_member`], or the member ends the output so far.
pub open spec fn member_written(out: Seq<u8>, from: int, key: Seq<u8>, value: Seq<u8>) -> bool {
    exists|k: int|
        #![trigger occurs_at(out, k, member_bytes(key, value))]
        from <= k && occurs_at(out, k, member_bytes(key, value)) && (k + member_bytes(key, value).len()
            == out.len() || (out[k + member_bytes(key, value).len()] == 44u8 || out[k + member_bytes(
            key,
            value,
        ).len()] == 125u8))
}

/// The output of `b` begins with that of `a`.
pub open spec fn grows(a: JsonState, b: JsonState) -> bool {
    &&& a.0.len() <= b.0.len()
    &&& b.0.subrange(0, a.0.len() as int) == a.0
}

pub proof fn lemma_grows_trans(a: JsonState, b: JsonState, c: JsonState)
    requires
        grows(a, b),
        grows(b, c),
    ensures
        grows(a, c),
{
    assert(c.0.subrange(0, a.0.len() as int) =~= c.0.subrange(0, b.0.len() as int).subrange(0, a.0.len() as int));
}

pub proof fn lemma_steps_grow(s: JsonState, b: Seq<u8>, c: u8)
    ensures
        grows(s, pre_value(s)),
        grows(s, value_step(s, b)),
        grows(s, key_step(s, b)),
        grows(s, open_step(s, c)),
        grows(s, close_step(s, c)),
{
    let p = pre_value(s);
    assert(p.0.subrange(0, s.0.len() as int) =~= s.0);
    assert(value_step(s, b).0.subrange(0, s.0.len() as int) =~= s.0);
    assert(key_step(s, b).0.subrange(0, s.0.len() as int) =~= s.0);
    assert(open_step(s, c).0.subrange(0, s.0.len() as int) =~= s.0);
    assert(close_step(s, c).0.subrange(0, s.0.len() as int) =~= s.0);
}

/// A member written stays written, with the same byte after it, as output
/// is added.
pub proof fn lemma_member_kept(a: JsonState, b: JsonState, from: int, key: Seq<u8>, value: Seq<u8>)
    requires
        grows(a, b),
        has_member(a.0, from, key, value),
    ensures
        has_member(b.0, from, key, value),
{
    let m = member_bytes(key, value);
    let k = choose|k: int|
        #![trigger occurs_at(a.0, k, m)]
        from <= k && occurs_at(a.0, k, m) && k + m.len() < a.0.len() && (a.0[k + m.len()] == 44u8
            || a.0[k + m.len()] == 125u8);
    assert(b.0.subrange(k, k + m.len()) =~= a.0.subrange(k, k + m.len()));
    assert(b.0[k + m.len()] == b.0.subrange(0, a.0.len() as int)[k + m.len()]);
    assert(occurs_at(b.0, k, m));
}

/// A member that ends the output, followed by a comma or closing brace,
/// becomes a member in full.
pub proof fn lemma_member_closed(a: JsonState, b: JsonState, from: int, key: Seq<u8>, value: Seq<u8>)
    requires
        grows(a, b),
        member_written(a.0, from, key, value),
        b.0.len() > a.0.len(),
        b.0[a.0.len() as int] == 44u8 || b.0[a.0.len() as int] == 125u8,
    ensures
        has_member(b.0, from, key, value),
{
    let m = member_bytes(key, value);
    let k = choose|k: int|
        #![trigger occurs_at(a.0, k, m)]
        from <= k && occurs_at(a.0, k, m) && (k + m.len() == a.0.len() || (a.0[k + m.len()] == 44u8
            || a.0[k + m.len()] == 125u8));
    assert(b.0.subrange(k, k + m.len()) =~= a.0.subrange(k, k + m.len()));
    if k + m.len() < a.0.len() {
        assert(b.0[k + m.len()] == b.0.subrange(0, a.0.len() as int)[k + m.len()]);
    }
    assert(occurs_at(b.0, k, m));
}

/// A member written in full stays so; and one written is at least pending.
pub proof fn lemma_has_member_written(out: Seq<u8>, from: int, key: Seq<u8>, value: Seq<u8>)
    requires
        has_member(out, from, key, value),
    ensures
        member_written(out, from, key, value),
{
    let m = member_bytes(key, value);
    let k = choose|k: int|
        #![trigger occurs_at(out, k, m)]
        from <= k && occurs_at(out, k, m) && k + m.len() < out.len() && (out[k + m.len()] == 44u8
            || out[k + m.len()] == 125u8);
    assert(occurs_at(out, k, m));
}

/// A member: its key, then its value.
pub open spec fn member(t: JsonState, key: Seq<u8>, value: Seq<u8>) -> JsonState {
    value_step(key_step(t, key), value)
}

/// Writing a member inside an object appends a comma when a member came
/// before, then the member's bytes; the object no longer awaits its first
/// member.
pub proof fn lemma_member(t: JsonState, key: Seq<u8>, value: Seq<u8>)
    requires
        t.1.len() > 0,
        !t.2,
    ensures
        ({
            let u = member(t, key, value);
            &&& u.0 == (if t.1.last() {
                t.0
            } else {
                t.0.push(44u8)
            }) + member_bytes(key, value)
            &&& u.1.len() == t.1.len()
            &&& !u.1.last()
            &&& !u.2
            &&& u.1.drop_last() == t.1.drop_last()
            &&& grows(t, u)
            &&& member_written(u.0, t.0.len() as int, key, value)
        }),
{
    let u = member(t, key, value);
    let pre = if t.1.last() {
        t.0
    } else {
        t.0.push(44u8)
    };
    let m = member_bytes(key, value);
    assert(u.0 =~= pre + m);
    assert(u.1.drop_last() =~= t.1.drop_last());
    assert(u.0.subrange(0, t.0.len() as int) =~= t.0);
    let k = pre.len() as int;
    assert(u.0.subrange(k, k + m.len()) =~= m);
    assert(occurs_at(u.0, k, m));
}

/// After a member inside an object, the next key starts with a comma.
pub proof fn lemma_next_key(t: JsonState, key: Seq<u8>)
    requires
        t.1.len() > 0,
        !t.2,
        !t.1.last(),
    ensures
        key_step(t, key).0.len() > t.0.len(),
        key_step(t, key).0[t.0.len() as int] == 44u8,
        grows(t, key_step(t, key)),
        key_step(t, key).1 == t.1,
{
    lemma_steps_grow(t, key, 0u8);
    assert(key_step(t, key).1 =~= t.1);
}

/// A member found from `f1` on is found from any earlier position.
pub proof fn lemma_member_written_from(out: Seq<u8>, f0: int, f1: int, key: Seq<u8>, value: Seq<u8>)
    requires
        f0 <= f1,
        member_written(out, f1, key, value),
    ensures
        member_written(out, f0, key, value),
{
    let m = member_bytes(key, value);
    let k = choose|k: int|
        #![trigger occurs_at(out, k, m)]
        f1 <= k && occurs_at(out, k, m) && (k + m.len() == out.len() || (out[k + m.len()] == 44u8
            || out[k + m.len()] == 125u8));
    assert(occurs_at(out, k, m));
}

/// The optional members `fs`, in order, each written when present.
pub open spec fn opt_members(t: JsonState, fs: Seq<(Seq<u8>, Option<Seq<u8>>)>) -> JsonState
    decreases fs.len(),
{
    if fs.len() == 0 {
        t
    } else {
        opt_raw_field(opt_members(t, fs.drop_last()), fs.last().0, fs.last().1)
    }
}

/// Each optional member that is present is written, after a comma when it
/// is not the object's first.
pub proof fn lemma_opt_members(t: JsonState, fs: Seq<(Seq<u8>, Option<Seq<u8>>)>)
    requires
        t.1.len() > 0,
        !t.2,
    ensures
        ({
            let u = opt_members(t, fs);
            &&& grows(t, u)
            &&& u.1.len() == t.1.len()
            &&& u.1.drop_last() == t.1.drop_last()
            &&& !u.2
            &&& (u.1.last() ==> u.0 == t.0)
            &&& forall|j: int|
                0 <= j < fs.len() && (#[trigger] fs[j]).1 is Some ==> member_written(
                    u.0,
                    t.0.len() as int,
                    fs[j].0,
                    fs[j].1->0,
                )
        }),
    decreases fs.len(),
{
    let u = opt_members(t, fs);
    if fs.len() == 0 {
        assert(t.0.subrange(0, t.0.len() as int) =~= t.0);
    } else {
        let front = fs.drop_last();
        lemma_opt_members(t, front);
        let v = opt_members(t, front);
        let e = fs.last();
        assert forall|j: int| 0 <= j < front.len() implies front[j] == fs[j] by {}
        match e.1 {
            None => {
                assert(u == v);
            },
            Some(b) => {
                assert(u == member(v, e.0, b));
                lemma_member(v, e.0, b);
                lemma_grows_trans(t, v, u);
                assert(u.1.drop_last() == t.1.drop_last());
                lemma_member_written_from(u.0, t.0.len() as int, v.0.len() as int, e.0, b);
                assert forall|j: int| 0 <= j < fs.len() && (#[trigger] fs[j]).1 is Some implies member_written(
                    u.0,
                    t.0.len() as int,
                    fs[j].0,
                    fs[j].1->0,
                ) by {
                    if j < fs.len() - 1 {
                        assert(front[j] == fs[j]);
                        let m = member_bytes(fs[j].0, fs[j].1->0);
                        assert(member_written(v.0, t.0.len() as int, fs[j].0, fs[j].1->0));
                        let k = choose|k: int|
                            #![trigger occurs_at(v.0, k, m)]
                            t.0.len() <= k && occurs_at(v.0, k, m) && (k + m.len() == v.0.len() || (v.0[k
                                + m.len()] == 44u8 || v.0[k + m.len()] == 125u8));
                        assert(m.len() > 0);
                        assert(v.0.len() > t.0.len());
                        assert(!v.1.last());
                        if k + m.len() == v.0.len() {
                            assert(u.0[v.0.len() as int] == 44u8);
                            lemma_member_closed(v, u, t.0.len() as int, fs[j].0, fs[j].1->0);
                        } else {
                            assert(occurs_at(v.0, k, m));
                            assert(has_member(v.0, t.0.len() as int, fs[j].0, fs[j].1->0));
                            lemma_member_kept(v, u, t.0.len() as int, fs[j].0, fs[j].1->0);
                        }
                        lemma_has_member_written(u.0, t.0.len() as int, fs[j].0, fs[j].1->0);
                    }
                }
            },
        }
    }
}

/// Optional members inside an object that is then closed: each present one
/// stands in full, followed by a comma or the closing brace.
pub proof fn lemma_closed_members(t: JsonState, fs: Seq<(Seq<u8>, Option<Seq<u8>>)>)
    requires
        t.1.len() > 0,
        !t.2,
    ensures
        forall|j: int|
            0 <= j < fs.len() && (#[trigger] fs[j]).1 is Some ==> has_member(
                close_step(opt_members(t, fs), 125u8).0,
                t.0.len() as int,
                fs[j].0,
                fs[j].1->0,
            ),
{
    lemma_opt_members(t, fs);
    let u = opt_members(t, fs);
    let c = close_step(u, 125u8);
    lemma_steps_grow(u, Seq::empty(), 125u8);
    assert(c.0 == u.0.push(125u8));
    assert forall|j: int| 0 <= j < fs.len() && (#[trigger] fs[j]).1 is Some implies has_member(
        c.0,
        t.0.len() as int,
        fs[j].0,
        fs[j].1->0,
    ) by {
        lemma_member_closed(u, c, t.0.len() as int, fs[j].0, fs[j].1->0);
    }
}

/// An optional text as the bytes of a JSON string.
pub open spec fn quoted_opt(v: Option<Seq<u8>>) -> Option<Seq<u8>> {
    match v {
        Some(b) => Some(quoted(b)),
        None => None,
    }
}

/// An optional whole number as its decimal digits.
pub open spec fn digits_opt(v: Option<u64>) -> Option<Seq<u8>> {
    match v {
        Some(n) => Some(text::decimal_digits(n as nat)),
        None => None,
    }
}

/// The fields of a read body, in their order, as optional member values.
pub open spec fn read_fields(
    path: Option<Seq<u8>>,
    rid: Option<Seq<u8>>,
    newest: Option<u64>,
    oldest: Option<u64>,
    begin: Option<Seq<u8>>,
    end: Option<Seq<u8>>,
    depth: Option<u64>,
    interval: Option<Seq<u8>>,
    callback: Option<Seq<u8>>,
) -> Seq<(Seq<u8>, Option<Seq<u8>>)> {
    seq![
        ("path".spec_bytes(), quoted_opt(path)),
        ("rid".spec_bytes(), quoted_opt(rid)),
        ("newest".spec_bytes(), digits_opt(newest)),
        ("oldest".spec_bytes(), digits_opt(oldest)),
        ("begin".spec_bytes(), begin),
        ("end".spec_bytes(), end),
        ("depth".spec_bytes(), digits_opt(depth)),
        ("interval".spec_bytes(), interval),
        ("callback".spec_bytes(), quoted_opt(callback)),
    ]
}

proof fn lemma_opt_fields_raw(s: JsonState, k: Seq<u8>, v: Option<Seq<u8>>, n: Option<u64>)
    ensures
        opt_str_field(s, k, v) == opt_raw_field(s, k, quoted_opt(v)),
        opt_u64_field(s, k, n) == opt_raw_field(s, k, digits_opt(n)),
{
}

/// A read operation body holds each field that is given as a member
/// `"key":value` (strings quoted, limits in decimal, times as their texts),
/// each followed by a comma or the closing brace.
pub proof fn law_read_body_members(
    s: JsonState,
    path: Option<Seq<u8>>,
    rid: Option<Seq<u8>>,
    newest: Option<u64>,
    oldest: Option<u64>,
    begin: Option<Seq<u8>>,
    end: Option<Seq<u8>>,
    depth: Option<u64>,
    interval: Option<Seq<u8>>,
    callback: Option<Seq<u8>>,
)
    ensures
        ({
            let out = read_body_json(s, path, rid, newest, oldest, begin, end, depth, interval, callback).0;
            let from = s.0.len() as int;
            &&& (path matches Some(p) ==> has_member(out, from, "path".spec_bytes(), quoted(p)))
            &&& (rid matches Some(p) ==> has_member(out, from, "rid".spec_bytes(), quoted(p)))
            &&& (newest matches Some(n) ==> has_member(out, from, "newest".spec_bytes(), text::decimal_digits(n as nat)))
            &&& (oldest matches Some(n) ==> has_member(out, from, "oldest".spec_bytes(), text::decimal_digits(n as nat)))
            &&& (begin matches Some(b) ==> has_member(out, from, "begin".spec_bytes(), b))
            &&& (end matches Some(b) ==> has_member(out, from, "end".spec_bytes(), b))
            &&& (depth matches Some(n) ==> has_member(out, from, "depth".spec_bytes(), text::decimal_digits(n as nat)))
            &&& (interval matches Some(b) ==> has_member(out, from, "interval".spec_bytes(), b))
            &&& (callback matches Some(p) ==> has_member(out, from, "callback".spec_bytes(), quoted(p)))
        }),
{
    let t = open_step(s, 123u8);
    let fs = read_fields(path, rid, newest, oldest, begin, end, depth, interval, callback);
    reveal_with_fuel(opt_members, 10);
    let ts = t;
    lemma_opt_fields_raw(ts, "path".spec_bytes(), path, None);
    let t1 = opt_str_field(ts, "path".spec_bytes(), path);
    lemma_opt_fields_raw(t1, "rid".spec_bytes(), rid, None);
    let t2 = opt_str_field(t1, "rid".spec_bytes(), rid);
    lemma_opt_fields_raw(t2, "newest".spec_bytes(), None, newest);
    let t3 = opt_u64_field(t2, "newest".spec_bytes(), newest);
    lemma_opt_fields_raw(t3, "oldest".spec_bytes(), None, oldest);
    let t4 = opt_u64_field(t3, "oldest".spec_bytes(), oldest);
    let t5 = opt_raw_field(t4, "begin".spec_bytes(), begin);
    let t6 = opt_raw_field(t5, "end".spec_bytes(), end);
    lemma_opt_fields_raw(t6, "depth".spec_bytes(), None, depth);
    let t7 = opt_u64_field(t6, "depth".spec_bytes(), depth);
    let t8 = opt_raw_field(t7, "interval".spec_bytes(), interval);
    lemma_opt_fields_raw(t8, "callback".spec_bytes(), callback, None);
    let t9 = opt_str_field(t8, "callback".spec_bytes(), callback);
    assert(fs.drop_last().drop_last().drop_last().drop_last().drop_last().drop_last().drop_last().drop_last().drop_last() =~= Seq::<(Seq<u8>, Option<Seq<u8>>)>::empty());
    assert(opt_members(t, fs) == t9);
    assert(read_body_json(s, path, rid, newest, oldest, begin, end, depth, interval, callback) == close_step(t9, 125u8));
    lemma_closed_members(t, fs);
    lemma_steps_grow(s, Seq::empty(), 123u8);
    assert(t.0.len() >= s.0.len());
    assert(fs[0] == ("path".spec_bytes(), quoted_opt(path)));
    assert(fs[1] == ("rid".spec_bytes(), quoted_opt(rid)));
    assert(fs[2] == ("newest".spec_bytes(), digits_opt(newest)));
    assert(fs[3] == ("oldest".spec_bytes(), digits_opt(oldest)));
    assert(fs[4] == ("begin".spec_bytes(), begin));
    assert(fs[5] == ("end".spec_bytes(), end));
    assert(fs[6] == ("depth".spec_bytes(), digits_opt(depth)));
    assert(fs[7] == ("interval".spec_bytes(), interval));
    assert(fs[8] == ("callback".spec_bytes(), quoted_opt(callback)));
    let out = close_step(t9, 125u8).0;
    let from = s.0.len() as int;
    assert forall|j: int| 0 <= j < 9 && (#[trigger] fs[j]).1 is Some implies has_member(out, from, fs[j].0, fs[j].1->0) by {
        lemma_has_member_from(out, from, t.0.len() as int, fs[j].0, fs[j].1->0);
    }
}

/// A member found from `f1` on is found from any earlier position.
pub proof fn lemma_has_member_from(out: Seq<u8>, f0: int, f1: int, key: Seq<u8>, value: Seq<u8>)
    requires
        f0 <= f1,
        has_member(out, f1, key, value),
    ensures
        has_member(out, f0, key, value),
{
    let m = member_bytes(key, value);
    let k = choose|k: int|
        #![trigger occurs_at(out, k, m)]
        f1 <= k && occurs_at(out, k, m) && k + m.len() < out.len() && (out[k + m.len()] == 44u8
            || out[k + m.len()] == 125u8);
    assert(occurs_at(out, k, m));
}

/// `p` stands in `out` at or after position `from`.
pub open spec fn has_text(out: Seq<u8>, from: int, p: Seq<u8>) -> bool {
    exists|k: int| #![trigger occurs_at(out, k, p)] from <= k && occurs_at(out, k, p)
}

proof fn lemma_has_text_kept(a: JsonState, b: JsonState, from: int, p: Seq<u8>)
    requires
        grows(a, b),
        has_text(a.0, from, p),
    ensures
        has_text(b.0, from, p),
{
    let k = choose|k: int| #![trigger occurs_at(a.0, k, p)] from <= k && occurs_at(a.0, k, p);
    assert(b.0.subrange(k, k + p.len()) =~= a.0.subrange(k, k + p.len()));
    assert(occurs_at(b.0, k, p));
}

proof fn lemma_omi_value_grows(s: JsonState, v: OmiValueView, nums: Seq<(u64, String)>)
    ensures
        grows(s, omi_value_json(s, v, nums)),
        omi_value_json(s, v, nums).1 == pre_value(s).1,
        !omi_value_json(s, v, nums).2,
{
    lemma_steps_grow(s, crate::json::odf_writer::number_text(nums, 0), 0u8);
    match v {
        OmiValueView::Null => lemma_steps_grow(s, "null".spec_bytes(), 0u8),
        OmiValueView::Bool(b) => {
            lemma_steps_grow(s, "true".spec_bytes(), 0u8);
            lemma_steps_grow(s, "false".spec_bytes(), 0u8);
        },
        OmiValueView::Number(n) => lemma_steps_grow(s, crate::json::odf_writer::number_text(nums, n), 0u8),
        OmiValueView::Str(t) => lemma_steps_grow(s, quoted(encode_utf8(t)), 0u8),
    }
}

proof fn lemma_opt_raw_grows(s: JsonState, k: Seq<u8>, v: Option<Seq<u8>>)
    ensures
        grows(s, opt_raw_field(s, k, v)),
{
    lemma_steps_grow(s, k, 0u8);
    assert(s.0.subrange(0, s.0.len() as int) =~= s.0);
    if let Some(b) = v {
        lemma_steps_grow(key_step(s, k), b, 0u8);
        lemma_grows_trans(s, key_step(s, k), opt_raw_field(s, k, v));
    }
}

proof fn lemma_value_grows(s: JsonState, v: ValueView, nums: Seq<(u64, String)>)
    ensures
        grows(s, value_json(s, v, nums)),
{
    let a = open_step(s, 123u8);
    let b = key_step(a, "v".spec_bytes());
    let c = omi_value_json(b, v.v, nums);
    let d = opt_raw_field(c, "t".spec_bytes(), opt_number(nums, v.t));
    lemma_steps_grow(s, Seq::empty(), 123u8);
    lemma_steps_grow(a, "v".spec_bytes(), 0u8);
    lemma_omi_value_grows(b, v.v, nums);
    lemma_opt_raw_grows(c, "t".spec_bytes(), opt_number(nums, v.t));
    lemma_steps_grow(d, Seq::empty(), 125u8);
    lemma_grows_trans(s, a, b);
    lemma_grows_trans(s, b, c);
    lemma_grows_trans(s, c, d);
    lemma_grows_trans(s, d, close_step(d, 125u8));
}

proof fn lemma_values_grow(s: JsonState, vs: Seq<ValueView>, nums: Seq<(u64, String)>)
    ensures
        grows(s, values_json(s, vs, nums)),
    decreases vs.len(),
{
    if vs.len() == 0 {
        assert(s.0.subrange(0, s.0.len() as int) =~= s.0);
    } else {
        lemma_values_grow(s, vs.drop_last(), nums);
        let p = values_json(s, vs.drop_last(), nums);
        lemma_value_grows(p, vs.last(), nums);
        lemma_grows_trans(s, p, values_json(s, vs, nums));
    }
}

proof fn lemma_ring_grows(s: JsonState, c: Seq<ValueView>, nums: Seq<(u64, String)>)
    ensures
        grows(s, ring_json(s, c, nums)),
{
    let vs = crate::odf::value::newest_of(c, c.len());
    let a = open_step(s, 91u8);
    lemma_steps_grow(s, Seq::empty(), 91u8);
    lemma_values_grow(a, vs, nums);
    let b = values_json(a, vs, nums);
    lemma_steps_grow(b, Seq::empty(), 93u8);
    lemma_grows_trans(s, a, b);
    lemma_grows_trans(s, b, close_step(b, 93u8));
    lemma_grows_trans(a, b, close_step(b, 93u8));
}

proof fn lemma_meta_grows(s: JsonState, m: Seq<(String, OmiValue)>, nums: Seq<(u64, String)>)
    ensures
        grows(s, meta_json(s, m, nums)),
        s.1.len() > 0 ==> meta_json(s, m, nums).1.len() == s.1.len() && meta_json(s, m, nums).1.drop_last()
            == s.1.drop_last(),
        !s.2 ==> !meta_json(s, m, nums).2,
    decreases m.len(),
{
    if m.len() == 0 {
        assert(s.0.subrange(0, s.0.len() as int) =~= s.0);
    } else {
        lemma_meta_grows(s, m.drop_last(), nums);
        let p = meta_json(s, m.drop_last(), nums);
        let k = key_step(p, encode_utf8(m.last().0@));
        assert(pre_value(k).1 == k.1);
        if p.1.len() > 0 {
            assert(pre_value(p).1.drop_last() =~= p.1.drop_last());
        }
        lemma_steps_grow(p, encode_utf8(m.last().0@), 0u8);
        lemma_omi_value_grows(k, m.last().1@, nums);
        lemma_grows_trans(s, p, k);
        lemma_grows_trans(s, k, meta_json(s, m, nums));
    }
}

/// After a key, opening a container writes its bracket right after the colon.
proof fn lemma_key_open(t: JsonState, key: Seq<u8>, bracket: u8)
    requires
        t.1.len() > 0,
        !t.2,
    ensures
        has_text(open_step(key_step(t, key), bracket).0, t.0.len() as int, quoted(key) + seq![58u8, bracket]),
        grows(t, key_step(t, key)),
        grows(key_step(t, key), open_step(key_step(t, key), bracket)),
{
    let x = key_step(t, key);
    let o = open_step(x, bracket);
    lemma_steps_grow(t, key, 0u8);
    lemma_steps_grow(x, Seq::empty(), bracket);
    let p = quoted(key) + seq![58u8, bracket];
    let k = pre_value(t).0.len() as int;
    assert(o.0 =~= pre_value(t).0 + p);
    assert(o.0.subrange(k, k + p.len()) =~= p);
    assert(occurs_at(o.0, k, p));
}

/// The JSON of an InfoItem holds its type and description as members
/// `"type":"..."` and `"desc":"..."` when it has them, its metadata under
/// `"meta":{` when it has some, and its values under `"values":[` when its
/// history is not empty.
pub proof fn law_info_item_members(s: JsonState, i: InfoItem, nums: Seq<(u64, String)>)
    ensures
        ({
            let out = info_item_json(s, i, nums).0;
            let from = s.0.len() as int;
            &&& (i.type_uri matches Some(t) ==> has_member(out, from, "type".spec_bytes(), quoted(encode_utf8(t@))))
            &&& (i.desc matches Some(d) ==> has_member(out, from, "desc".spec_bytes(), quoted(encode_utf8(d@))))
            &&& (i.meta is Some ==> has_text(out, from, quoted("meta".spec_bytes()) + seq![58u8, 123u8]))
            &&& (i.values.contents().len() > 0 ==> has_text(out, from, quoted("values".spec_bytes()) + seq![58u8, 91u8]))
        }),
{
    let t = open_step(s, 123u8);
    lemma_steps_grow(s, Seq::empty(), 123u8);
    let fs = seq![
        ("type".spec_bytes(), quoted_opt(crate::json::serializer::opt_string_bytes(i.type_uri))),
        ("desc".spec_bytes(), quoted_opt(crate::json::serializer::opt_string_bytes(i.desc))),
    ];
    reveal_with_fuel(opt_members, 3);
    lemma_opt_fields_raw(t, "type".spec_bytes(), crate::json::serializer::opt_string_bytes(i.type_uri), None);
    let t1 = opt_str_field(t, "type".spec_bytes(), crate::json::serializer::opt_string_bytes(i.type_uri));
    lemma_opt_fields_raw(t1, "desc".spec_bytes(), crate::json::serializer::opt_string_bytes(i.desc), None);
    let a = opt_str_field(t1, "desc".spec_bytes(), crate::json::serializer::opt_string_bytes(i.desc));
    assert(fs.drop_last().drop_last() =~= Seq::<(Seq<u8>, Option<Seq<u8>>)>::empty());
    assert(opt_members(t, fs) == a);
    lemma_opt_members(t, fs);
    let b = match i.meta {
        Some(m) => close_step(meta_json(open_step(key_step(a, "meta".spec_bytes()), 123u8), m@, nums), 125u8),
        None => a,
    };
    let c = if i.values.contents().len() > 0 {
        ring_json(key_step(b, "values".spec_bytes()), i.values.contents(), nums)
    } else {
        b
    };
    let f = close_step(c, 125u8);
    assert(info_item_json(s, i, nums) == f);
    // b grows from a; when meta is written, a comma follows a's members.
    assert(a.0.subrange(0, a.0.len() as int) =~= a.0);
    if let Some(m) = i.meta {
        let x = key_step(a, "meta".spec_bytes());
        let o = open_step(x, 123u8);
        lemma_key_open(a, "meta".spec_bytes(), 123u8);
        lemma_meta_grows(o, m@, nums);
        let mm = meta_json(o, m@, nums);
        lemma_steps_grow(mm, Seq::empty(), 125u8);
        lemma_grows_trans(x, o, mm);
        lemma_grows_trans(x, mm, b);
        lemma_grows_trans(a, x, b);
        lemma_has_text_kept(o, mm, a.0.len() as int, quoted("meta".spec_bytes()) + seq![58u8, 123u8]);
        lemma_has_text_kept(mm, b, a.0.len() as int, quoted("meta".spec_bytes()) + seq![58u8, 123u8]);
        assert(o.1 == x.1.push(true));
        assert(x.1.len() == a.1.len());
        assert(mm.1.drop_last() =~= o.1.drop_last());
        assert(b.1 == x.1);
        assert(!b.2);
    }
    // c grows from b.
    assert(b.0.subrange(0, b.0.len() as int) =~= b.0);
    assert(b.1.len() == a.1.len());
    if i.values.contents().len() > 0 {
        let x = key_step(b, "values".spec_bytes());
        lemma_key_open(b, "values".spec_bytes(), 91u8);
        lemma_ring_grows(x, i.values.contents(), nums);
        lemma_grows_trans(b, x, c);
        let o = open_step(x, 91u8);
        let vs = crate::odf::value::newest_of(i.values.contents(), i.values.contents().len());
        lemma_values_grow(o, vs, nums);
        lemma_steps_grow(values_json(o, vs, nums), Seq::empty(), 93u8);
        lemma_grows_trans(o, values_json(o, vs, nums), c);
        lemma_has_text_kept(o, c, b.0.len() as int, quoted("values".spec_bytes()) + seq![58u8, 91u8]);
    }
    lemma_steps_grow(c, Seq::empty(), 125u8);
    lemma_grows_trans(a, b, c);
    lemma_grows_trans(a, c, f);
    lemma_grows_trans(b, c, f);
    // What follows the members of a: a comma (meta or values key) or the brace.
    if a.0.len() > t.0.len() {
        assert(!a.1.last());
        if i.meta is Some {
            lemma_next_key(a, "meta".spec_bytes());
            assert(f.0[a.0.len() as int] == key_step(a, "meta".spec_bytes()).0[a.0.len() as int]) by {
                assert(grows(key_step(a, "meta".spec_bytes()), b)) by {
                    let x = key_step(a, "meta".spec_bytes());
                    let o = open_step(x, 123u8);
                    lemma_key_open(a, "meta".spec_bytes(), 123u8);
                    lemma_meta_grows(o, i.meta->0@, nums);
                    lemma_steps_grow(meta_json(o, i.meta->0@, nums), Seq::empty(), 125u8);
                    lemma_grows_trans(x, o, meta_json(o, i.meta->0@, nums));
                    lemma_grows_trans(x, meta_json(o, i.meta->0@, nums), b);
                }
                lemma_grows_trans(key_step(a, "meta".spec_bytes()), b, f);
                assert(f.0.subrange(0, key_step(a, "meta".spec_bytes()).0.len() as int)[a.0.len() as int]
                    == f.0[a.0.len() as int]);
            }
        } else if i.values.contents().len() > 0 {
            assert(b == a);
            lemma_next_key(a, "values".spec_bytes());
            let x = key_step(a, "values".spec_bytes());
            lemma_ring_grows(x, i.values.contents(), nums);
            lemma_grows_trans(x, c, f);
            assert(f.0.subrange(0, x.0.len() as int)[a.0.len() as int] == f.0[a.0.len() as int]);
        } else {
            assert(c == a);
            assert(f.0 == a.0.push(125u8));
        }
        assert(f.0[a.0.len() as int] == 44u8 || f.0[a.0.len() as int] == 125u8);
    }
    assert forall|j: int| 0 <= j < 2 && (#[trigger] fs[j]).1 is Some implies has_member(f.0, s.0.len() as int, fs[j].0, fs[j].1->0) by {
        let m = member_bytes(fs[j].0, fs[j].1->0);
        assert(member_written(a.0, t.0.len() as int, fs[j].0, fs[j].1->0));
        let k = choose|k: int|
            #![trigger occurs_at(a.0, k, m)]
            t.0.len() <= k && occurs_at(a.0, k, m) && (k + m.len() == a.0.len() || (a.0[k + m.len()] == 44u8
                || a.0[k + m.len()] == 125u8));
        assert(a.0.len() > t.0.len());
        if k + m.len() == a.0.len() {
            lemma_member_closed(a, f, t.0.len() as int, fs[j].0, fs[j].1->0);
        } else {
            assert(occurs_at(a.0, k, m));
            assert(has_member(a.0, t.0.len() as int, fs[j].0, fs[j].1->0));
            lemma_member_kept(a, f, t.0.len() as int, fs[j].0, fs[j].1->0);
        }
        lemma_has_member_from(f.0, s.0.len() as int, t.0.len() as int, fs[j].0, fs[j].1->0);
    }
    assert(fs[0].1 == quoted_opt(crate::json::serializer::opt_string_bytes(i.type_uri)));
    assert(fs[1].1 == quoted_opt(crate::json::serializer::opt_string_bytes(i.desc)));
    if i.meta is Some {
        assert(has_text(b.0, a.0.len() as int, quoted("meta".spec_bytes()) + seq![58u8, 123u8]));
        lemma_has_text_kept(b, f, a.0.len() as int, quoted("meta".spec_bytes()) + seq![58u8, 123u8]);
        lemma_has_text_from(f.0, s.0.len() as int, a.0.len() as int, quoted("meta".spec_bytes()) + seq![58u8, 123u8]);
    }
    if i.values.contents().len() > 0 {
        lemma_has_text_kept(c, f, b.0.len() as int, quoted("values".spec_bytes()) + seq![58u8, 91u8]);
        lemma_has_text_from(f.0, s.0.len() as int, b.0.len() as int, quoted("values".spec_bytes()) + seq![58u8, 91u8]);
    }
}

proof fn lemma_has_text_from(out: Seq<u8>, f0: int, f1: int, p: Seq<u8>)
    requires
        f0 <= f1,
        has_text(out, f1, p),
    ensures
        has_text(out, f0, p),
{
    let k = choose|k: int| #![trigger occurs_at(out, k, p)] f1 <= k && occurs_at(out, k, p);
    assert(occurs_at(out, k, p));
}

/// The members `fs` written from `t`, followed in `f` by a comma or a
/// closing brace, stand in full in `f`.
pub proof fn lemma_members_then(t: JsonState, fs: Seq<(Seq<u8>, Option<Seq<u8>>)>, f: JsonState)
    requires
        t.1.len() > 0,
        !t.2,
        grows(opt_members(t, fs), f),
        opt_members(t, fs).0.len() > t.0.len() ==> f.0.len() > opt_members(t, fs).0.len() && (f.0[opt_members(
            t,
            fs,
        ).0.len() as int] == 44u8 || f.0[opt_members(t, fs).0.len() as int] == 125u8),
    ensures
        forall|j: int|
            0 <= j < fs.len() && (#[trigger] fs[j]).1 is Some ==> has_member(f.0, t.0.len() as int, fs[j].0, fs[j].1->0),
{
    lemma_opt_members(t, fs);
    let a = opt_members(t, fs);
    assert forall|j: int| 0 <= j < fs.len() && (#[trigger] fs[j]).1 is Some implies has_member(f.0, t.0.len() as int, fs[j].0, fs[j].1->0) by {
        let m = member_bytes(fs[j].0, fs[j].1->0);
        assert(member_written(a.0, t.0.len() as int, fs[j].0, fs[j].1->0));
        let k = choose|k: int|
            #![trigger occurs_at(a.0, k, m)]
            t.0.len() <= k && occurs_at(a.0, k, m) && (k + m.len() == a.0.len() || (a.0[k + m.len()] == 44u8
                || a.0[k + m.len()] == 125u8));
        assert(a.0.len() > t.0.len());
        if k + m.len() == a.0.len() {
            lemma_member_closed(a, f, t.0.len() as int, fs[j].0, fs[j].1->0);
        } else {
            assert(occurs_at(a.0, k, m));
            assert(has_member(a.0, t.0.len() as int, fs[j].0, fs[j].1->0));
            lemma_member_kept(a, f, t.0.len() as int, fs[j].0, fs[j].1->0);
        }
    }
}

/// After a member, a key and whatever grows from it: the next byte is a comma.
proof fn lemma_comma_after(a: JsonState, key: Seq<u8>, f: JsonState)
    requires
        a.1.len() > 0,
        !a.2,
        !a.1.last(),
        grows(key_step(a, key), f),
    ensures
        f.0.len() > a.0.len(),
        f.0[a.0.len() as int] == 44u8,
        grows(a, f),
{
    lemma_next_key(a, key);
    let x = key_step(a, key);
    assert(f.0.subrange(0, x.0.len() as int)[a.0.len() as int] == f.0[a.0.len() as int]);
    lemma_grows_trans(a, x, f);
}

proof fn lemma_info_item_grows(s: JsonState, i: InfoItem, nums: Seq<(u64, String)>)
    ensures
        grows(s, info_item_json(s, i, nums)),
        s.1.len() > 0 ==> info_item_json(s, i, nums).1.len() == s.1.len(),
        !info_item_json(s, i, nums).2,
{
    let t = open_step(s, 123u8);
    lemma_steps_grow(s, Seq::empty(), 123u8);
    let ty = crate::json::serializer::opt_string_bytes(i.type_uri);
    let de = crate::json::serializer::opt_string_bytes(i.desc);
    lemma_opt_fields_raw(t, "type".spec_bytes(), ty, None);
    let t1 = opt_str_field(t, "type".spec_bytes(), ty);
    lemma_opt_fields_raw(t1, "desc".spec_bytes(), de, None);
    let a = opt_str_field(t1, "desc".spec_bytes(), de);
    lemma_opt_raw_grows(t, "type".spec_bytes(), quoted_opt(ty));
    lemma_opt_raw_grows(t1, "desc".spec_bytes(), quoted_opt(de));
    lemma_grows_trans(s, t, t1);
    lemma_grows_trans(s, t1, a);
    let fs = seq![("type".spec_bytes(), quoted_opt(ty)), ("desc".spec_bytes(), quoted_opt(de))];
    reveal_with_fuel(opt_members, 3);
    assert(fs.drop_last().drop_last() =~= Seq::<(Seq<u8>, Option<Seq<u8>>)>::empty());
    assert(opt_members(t, fs) == a);
    lemma_opt_members(t, fs);
    let b = match i.meta {
        Some(m) => close_step(meta_json(open_step(key_step(a, "meta".spec_bytes()), 123u8), m@, nums), 125u8),
        None => a,
    };
    assert(a.0.subrange(0, a.0.len() as int) =~= a.0);
    if let Some(m) = i.meta {
        let x = key_step(a, "meta".spec_bytes());
        let o = open_step(x, 123u8);
        lemma_key_open(a, "meta".spec_bytes(), 123u8);
        lemma_meta_grows(o, m@, nums);
        let mm = meta_json(o, m@, nums);
        lemma_steps_grow(mm, Seq::empty(), 125u8);
        lemma_grows_trans(x, o, mm);
        lemma_grows_trans(x, mm, b);
        lemma_grows_trans(a, x, b);
        assert(o.1 == x.1.push(true));
        assert(mm.1.drop_last() =~= o.1.drop_last());
    }
    let c = if i.values.contents().len() > 0 {
        ring_json(key_step(b, "values".spec_bytes()), i.values.contents(), nums)
    } else {
        b
    };
    assert(b.0.subrange(0, b.0.len() as int) =~= b.0);
    if i.values.contents().len() > 0 {
        let x = key_step(b, "values".spec_bytes());
        lemma_steps_grow(b, "values".spec_bytes(), 0u8);
        lemma_ring_grows(x, i.values.contents(), nums);
        lemma_grows_trans(b, x, c);
        let o = open_step(x, 91u8);
        let vs = crate::odf::value::newest_of(i.values.contents(), i.values.contents().len());
        lemma_values_stack(o, vs, nums);
        assert(o.1 == x.1.push(true));
        assert(values_json(o, vs, nums).1.drop_last() =~= o.1.drop_last());
    }
    lemma_steps_grow(c, Seq::empty(), 125u8);
    lemma_grows_trans(s, a, b);
    lemma_grows_trans(s, b, c);
    lemma_grows_trans(s, c, close_step(c, 125u8));
    assert(info_item_json(s, i, nums) == close_step(c, 125u8));
}

proof fn lemma_value_stack(s: JsonState, v: ValueView, nums: Seq<(u64, String)>)
    requires
        s.1.len() > 0,
    ensures
        value_json(s, v, nums).1.len() == s.1.len(),
        value_json(s, v, nums).1.drop_last() == s.1.drop_last(),
        !value_json(s, v, nums).2,
{
    let a = open_step(s, 123u8);
    let b = key_step(a, "v".spec_bytes());
    lemma_omi_value_grows(b, v.v, nums);
    let c = omi_value_json(b, v.v, nums);
    assert(pre_value(b).1 == b.1);
    assert(a.1 == pre_value(s).1.push(true));
    assert(pre_value(a).1 =~= a.1.update(a.1.len() - 1, false));
    let d = opt_raw_field(c, "t".spec_bytes(), opt_number(nums, v.t));
    assert(d.1.drop_last() =~= c.1.drop_last());
    assert(d.1.len() == c.1.len());
    assert(pre_value(s).1.drop_last() =~= s.1.drop_last());
}

proof fn lemma_values_stack(s: JsonState, vs: Seq<ValueView>, nums: Seq<(u64, String)>)
    requires
        s.1.len() > 0,
    ensures
        values_json(s, vs, nums).1.len() == s.1.len(),
        values_json(s, vs, nums).1.drop_last() == s.1.drop_last(),
        !s.2 ==> !values_json(s, vs, nums).2,
    decreases vs.len(),
{
    if vs.len() > 0 {
        lemma_values_stack(s, vs.drop_last(), nums);
        lemma_value_stack(values_json(s, vs.drop_last(), nums), vs.last(), nums);
    }
}

proof fn lemma_items_grow(s: JsonState, items: Seq<(String, InfoItem)>, nums: Seq<(u64, String)>)
    ensures
        grows(s, items_json(s, items, nums)),
        s.1.len() > 0 ==> items_json(s, items, nums).1.len() == s.1.len() && items_json(s, items, nums).1.drop_last()
            == s.1.drop_last(),
        !s.2 ==> !items_json(s, items, nums).2,
    decreases items.len(),
{
    if items.len() == 0 {
        assert(s.0.subrange(0, s.0.len() as int) =~= s.0);
    } else {
        lemma_items_grow(s, items.drop_last(), nums);
        let p = items_json(s, items.drop_last(), nums);
        let k = key_step(p, encode_utf8(items.last().0@));
        lemma_steps_grow(p, encode_utf8(items.last().0@), 0u8);
        lemma_info_item_stack(k, items.last().1, nums);
        lemma_info_item_grows(k, items.last().1, nums);
        lemma_grows_trans(s, p, k);
        lemma_grows_trans(s, k, items_json(s, items, nums));
        if p.1.len() > 0 {
            assert(pre_value(p).1.drop_last() =~= p.1.drop_last());
        }
    }
}

/// An InfoItem written after a key leaves the nesting as it was after the key.
proof fn lemma_info_item_stack(s: JsonState, i: InfoItem, nums: Seq<(u64, String)>)
    ensures
        info_item_json(s, i, nums).1 == pre_value(s).1,
{
    let t = open_step(s, 123u8);
    let ty = crate::json::serializer::opt_string_bytes(i.type_uri);
    let de = crate::json::serializer::opt_string_bytes(i.desc);
    lemma_opt_fields_raw(t, "type".spec_bytes(), ty, None);
    let t1 = opt_str_field(t, "type".spec_bytes(), ty);
    lemma_opt_fields_raw(t1, "desc".spec_bytes(), de, None);
    let a = opt_str_field(t1, "desc".spec_bytes(), de);
    let fs = seq![("type".spec_bytes(), quoted_opt(ty)), ("desc".spec_bytes(), quoted_opt(de))];
    reveal_with_fuel(opt_members, 3);
    assert(fs.drop_last().drop_last() =~= Seq::<(Seq<u8>, Option<Seq<u8>>)>::empty());
    assert(opt_members(t, fs) == a);
    lemma_opt_members(t, fs);
    assert(t.1 == pre_value(s).1.push(true));
    let b = match i.meta {
        Some(m) => close_step(meta_json(open_step(key_step(a, "meta".spec_bytes()), 123u8), m@, nums), 125u8),
        None => a,
    };
    if let Some(m) = i.meta {
        let x = key_step(a, "meta".spec_bytes());
        let o = open_step(x, 123u8);
        lemma_meta_grows(o, m@, nums);
        assert(o.1 == x.1.push(true));
        assert(meta_json(o, m@, nums).1.drop_last() =~= o.1.drop_last());
        assert(x.1 =~= pre_value(a).1);
        assert(pre_value(a).1.drop_last() =~= a.1.drop_last());
    }
    let c = if i.values.contents().len() > 0 {
        ring_json(key_step(b, "values".spec_bytes()), i.values.contents(), nums)
    } else {
        b
    };
    if i.values.contents().len() > 0 {
        let x = key_step(b, "values".spec_bytes());
        let o = open_step(x, 91u8);
        let vs = crate::odf::value::newest_of(i.values.contents(), i.values.contents().len());
        lemma_values_stack(o, vs, nums);
        assert(o.1 == x.1.push(true));
        assert(values_json(o, vs, nums).1.drop_last() =~= o.1.drop_last());
        assert(pre_value(b).1.drop_last() =~= b.1.drop_last());
        assert(pre_value(b).1.len() == b.1.len());
    }
    assert(c.1.len() == t.1.len());
    assert(c.1.drop_last() =~= t.1.drop_last());
    assert(info_item_json(s, i, nums) == close_step(c, 125u8));
}

/// The id, type and description members that open an object.
pub open spec fn object_head_fields(o: Object) -> Seq<(Seq<u8>, Option<Seq<u8>>)> {
    seq![
        ("id".spec_bytes(), Some(quoted(encode_utf8(o.id@)))),
        ("type".spec_bytes(), quoted_opt(crate::json::serializer::opt_string_bytes(o.type_uri))),
        ("desc".spec_bytes(), quoted_opt(crate::json::serializer::opt_string_bytes(o.desc))),
    ]
}

proof fn lemma_object_head(s: JsonState, o: Object)
    ensures
        ({
            let t = open_step(s, 123u8);
            opt_members(t, object_head_fields(o)) == opt_str_field(
                opt_str_field(
                    value_step(key_step(t, "id".spec_bytes()), quoted(encode_utf8(o.id@))),
                    "type".spec_bytes(),
                    crate::json::serializer::opt_string_bytes(o.type_uri),
                ),
                "desc".spec_bytes(),
                crate::json::serializer::opt_string_bytes(o.desc),
            )
        }),
{
    let t = open_step(s, 123u8);
    let fs = object_head_fields(o);
    reveal_with_fuel(opt_members, 4);
    assert(fs.drop_last().drop_last().drop_last() =~= Seq::<(Seq<u8>, Option<Seq<u8>>)>::empty());
    let t0 = value_step(key_step(t, "id".spec_bytes()), quoted(encode_utf8(o.id@)));
    assert(opt_members(t, fs.drop_last().drop_last()) == t0);
    lemma_opt_fields_raw(t0, "type".spec_bytes(), crate::json::serializer::opt_string_bytes(o.type_uri), None);
    let t1 = opt_str_field(t0, "type".spec_bytes(), crate::json::serializer::opt_string_bytes(o.type_uri));
    lemma_opt_fields_raw(t1, "desc".spec_bytes(), crate::json::serializer::opt_string_bytes(o.desc), None);
}

/// The parts of an object after its head: items and children to the depth.
pub open spec fn object_tail(a: JsonState, o: Object, depth: nat, nums: Seq<(u64, String)>) -> JsonState {
    if depth > 0 {
        let b1 = match o.items {
            Some(v) => close_step(items_json(open_step(key_step(a, "items".spec_bytes()), 123u8), v@, nums), 125u8),
            None => a,
        };
        match o.objects {
            Some(v) => close_step(
                children_json(open_step(key_step(b1, "objects".spec_bytes()), 123u8), v@, (depth - 1) as nat, nums),
                125u8,
            ),
            None => b1,
        }
    } else {
        a
    }
}

/// A map member `"key":{...}` written after `a`: grows, keeps the nesting,
/// and holds the key with its brace.
proof fn lemma_map_member(a: JsonState, key: Seq<u8>, inner: JsonState, done: JsonState)
    requires
        a.1.len() > 0,
        !a.2,
        grows(open_step(key_step(a, key), 123u8), inner),
        inner.1.drop_last() == open_step(key_step(a, key), 123u8).1.drop_last(),
        inner.1.len() == open_step(key_step(a, key), 123u8).1.len(),
        done == close_step(inner, 125u8),
    ensures
        grows(a, done),
        grows(key_step(a, key), done),
        done.1 == pre_value(a).1,
        done.1.len() == a.1.len(),
        !done.1.last(),
        has_text(done.0, a.0.len() as int, quoted(key) + seq![58u8, 123u8]),
{
    let x = key_step(a, key);
    let o = open_step(x, 123u8);
    lemma_key_open(a, key, 123u8);
    lemma_steps_grow(inner, Seq::empty(), 125u8);
    lemma_grows_trans(x, o, inner);
    lemma_grows_trans(x, inner, done);
    lemma_grows_trans(a, x, done);
    lemma_grows_trans(o, inner, done);
    assert(o.1 == x.1.push(true));
    assert(done.1 =~= x.1);
    lemma_has_text_kept(o, done, a.0.len() as int, quoted(key) + seq![58u8, 123u8]);
}

proof fn lemma_object_grows(s: JsonState, o: Object, depth: nat, nums: Seq<(u64, String)>)
    ensures
        grows(s, object_json(s, o, depth, nums)),
        object_json(s, o, depth, nums).1 == pre_value(s).1,
        !object_json(s, o, depth, nums).2,
    decreases o,
{
    let t = open_step(s, 123u8);
    lemma_steps_grow(s, Seq::empty(), 123u8);
    lemma_object_head(s, o);
    lemma_opt_members(t, object_head_fields(o));
    let a = opt_members(t, object_head_fields(o));
    assert(t.1 == pre_value(s).1.push(true));
    let f = object_tail(a, o, depth, nums);
    assert(object_json(s, o, depth, nums) == close_step(f, 125u8));
    lemma_object_tail(a, o, depth, nums);
    lemma_steps_grow(f, Seq::empty(), 125u8);
    lemma_grows_trans(s, t, a);
    lemma_grows_trans(s, a, f);
    lemma_grows_trans(s, f, close_step(f, 125u8));
    assert(f.1.drop_last() =~= t.1.drop_last());
}

/// What follows an object's head: it grows from the head, keeps the
/// nesting, and after a written head member comes a comma or nothing.
proof fn lemma_object_tail(a: JsonState, o: Object, depth: nat, nums: Seq<(u64, String)>)
    requires
        a.1.len() > 0,
        !a.2,
    ensures
        grows(a, object_tail(a, o, depth, nums)),
        object_tail(a, o, depth, nums).1.len() == a.1.len(),
        object_tail(a, o, depth, nums).1.drop_last() == a.1.drop_last(),
        !object_tail(a, o, depth, nums).2,
        !a.1.last() && object_tail(a, o, depth, nums).0.len() > a.0.len() ==> object_tail(a, o, depth, nums).0[a.0.len() as int] == 44u8,
        depth > 0 && o.items is Some ==> has_text(object_tail(a, o, depth, nums).0, a.0.len() as int, quoted("items".spec_bytes()) + seq![58u8, 123u8]),
        depth > 0 && o.objects is Some ==> has_text(object_tail(a, o, depth, nums).0, a.0.len() as int, quoted("objects".spec_bytes()) + seq![58u8, 123u8]),
    decreases o, 0int,
{
    let f = object_tail(a, o, depth, nums);
    assert(a.0.subrange(0, a.0.len() as int) =~= a.0);
    if depth > 0 {
        let b1 = match o.items {
            Some(v) => close_step(items_json(open_step(key_step(a, "items".spec_bytes()), 123u8), v@, nums), 125u8),
            None => a,
        };
        if let Some(v) = o.items {
            let x = key_step(a, "items".spec_bytes());
            let op = open_step(x, 123u8);
            lemma_items_grow(op, v@, nums);
            lemma_map_member(a, "items".spec_bytes(), items_json(op, v@, nums), b1);
            assert(pre_value(a).1.drop_last() =~= a.1.drop_last());
            if !a.1.last() {
                lemma_comma_after(a, "items".spec_bytes(), b1);
            }
        }
        assert(b1.0.subrange(0, b1.0.len() as int) =~= b1.0);
        if let Some(v) = o.objects {
            let x = key_step(b1, "objects".spec_bytes());
            let op = open_step(x, 123u8);
            assert(decreases_to!(o => o.objects));
            assert(decreases_to!(o.objects => o.objects->0));
            assert(decreases_to!(o.objects->0 => (o.objects->0)@));
            lemma_children_grow(op, v@, (depth - 1) as nat, nums);
            lemma_map_member(b1, "objects".spec_bytes(), children_json(op, v@, (depth - 1) as nat, nums), f);
            assert(pre_value(b1).1.drop_last() =~= b1.1.drop_last());
            lemma_grows_trans(a, b1, f);
            if o.items is Some {
                lemma_has_text_kept(b1, f, a.0.len() as int, quoted("items".spec_bytes()) + seq![58u8, 123u8]);
                if !a.1.last() {
                    assert(f.0.subrange(0, b1.0.len() as int)[a.0.len() as int] == f.0[a.0.len() as int]);
                }
            } else {
                if !a.1.last() {
                    lemma_comma_after(a, "objects".spec_bytes(), f);
                }
            }
            lemma_has_text_from(f.0, a.0.len() as int, b1.0.len() as int, quoted("objects".spec_bytes()) + seq![58u8, 123u8]);
        }
    }
}

proof fn lemma_children_grow(s: JsonState, c: Seq<(String, Object)>, depth: nat, nums: Seq<(u64, String)>)
    ensures
        grows(s, children_json(s, c, depth, nums)),
        s.1.len() > 0 ==> children_json(s, c, depth, nums).1.len() == s.1.len() && children_json(s, c, depth, nums).1.drop_last()
            == s.1.drop_last(),
        !s.2 ==> !children_json(s, c, depth, nums).2,
    decreases c, 1int,
{
    if c.len() == 0 {
        assert(s.0.subrange(0, s.0.len() as int) =~= s.0);
    } else {
        lemma_children_grow(s, c.drop_last(), depth, nums);
        let p = children_json(s, c.drop_last(), depth, nums);
        let k = key_step(p, encode_utf8(c.last().0@));
        lemma_steps_grow(p, encode_utf8(c.last().0@), 0u8);
        assert(decreases_to!(c => c[c.len() - 1]));
        assert(decreases_to!(c[c.len() - 1] => c[c.len() - 1].1));
        lemma_object_grows(k, c.last().1, depth, nums);
        lemma_grows_trans(s, p, k);
        lemma_grows_trans(s, k, children_json(s, c, depth, nums));
        if p.1.len() > 0 {
            assert(pre_value(p).1.drop_last() =~= p.1.drop_last());
        }
    }
}

/// The JSON of an object written to any depth holds its id, and its type and
/// description when it has them, as members; from depth 1 on, its items
/// under `"items":{` and its children under `"objects":{` when it has them.
pub proof fn law_object_members(s: JsonState, o: Object, depth: nat, nums: Seq<(u64, String)>)
    ensures
        ({
            let out = object_json(s, o, depth, nums).0;
            let from = s.0.len() as int;
            &&& has_member(out, from, "id".spec_bytes(), quoted(encode_utf8(o.id@)))
            &&& (o.type_uri matches Some(t) ==> has_member(out, from, "type".spec_bytes(), quoted(encode_utf8(t@))))
            &&& (o.desc matches Some(d) ==> has_member(out, from, "desc".spec_bytes(), quoted(encode_utf8(d@))))
            &&& (depth > 0 && o.items is Some ==> has_text(out, from, quoted("items".spec_bytes()) + seq![58u8, 123u8]))
            &&& (depth > 0 && o.objects is Some ==> has_text(out, from, quoted("objects".spec_bytes()) + seq![58u8, 123u8]))
        }),
{
    let t = open_step(s, 123u8);
    lemma_steps_grow(s, Seq::empty(), 123u8);
    let fs = object_head_fields(o);
    lemma_object_head(s, o);
    lemma_opt_members(t, fs);
    let a = opt_members(t, fs);
    let f = object_tail(a, o, depth, nums);
    let g = close_step(f, 125u8);
    assert(object_json(s, o, depth, nums) == g);
    lemma_object_tail(a, o, depth, nums);
    lemma_steps_grow(f, Seq::empty(), 125u8);
    lemma_grows_trans(a, f, g);
    assert(fs[0].1 is Some);
    assert(a.0.len() > t.0.len()) by {
        assert(member_written(a.0, t.0.len() as int, fs[0].0, fs[0].1->0));
    }
    assert(!a.1.last());
    if f.0.len() > a.0.len() {
        assert(g.0.subrange(0, f.0.len() as int)[a.0.len() as int] == g.0[a.0.len() as int]);
    } else {
        assert(f == a) by {
            assert(f.0.len() == a.0.len());
        }
        assert(g.0 == a.0.push(125u8));
    }
    lemma_members_then(t, fs, g);
    assert forall|j: int| 0 <= j < 3 && (#[trigger] fs[j]).1 is Some implies has_member(g.0, s.0.len() as int, fs[j].0, fs[j].1->0) by {
        lemma_has_member_from(g.0, s.0.len() as int, t.0.len() as int, fs[j].0, fs[j].1->0);
    }
    assert(fs[0] == ("id".spec_bytes(), Some(quoted(encode_utf8(o.id@)))));
    assert(fs[1].1 == quoted_opt(crate::json::serializer::opt_string_bytes(o.type_uri)));
    assert(fs[2].1 == quoted_opt(crate::json::serializer::opt_string_bytes(o.desc)));
    if depth > 0 && o.items is Some {
        lemma_has_text_kept(f, g, a.0.len() as int, quoted("items".spec_bytes()) + seq![58u8, 123u8]);
        lemma_has_text_from(g.0, s.0.len() as int, a.0.len() as int, quoted("items".spec_bytes()) + seq![58u8, 123u8]);
    }
    if depth > 0 && o.objects is Some {
        lemma_has_text_kept(f, g, a.0.len() as int, quoted("objects".spec_bytes()) + seq![58u8, 123u8]);
        lemma_has_text_from(g.0, s.0.len() as int, a.0.len() as int, quoted("objects".spec_bytes()) + seq![58u8, 123u8]);
    }
}

/// `r` is what writing one value from `s` leaves: the output grows, the
/// separator is taken, and the nesting is as before.
pub open spec fn value_written(s: JsonState, r: JsonState) -> bool {
    &&& grows(s, r)
    &&& r.1 == pre_value(s).1
    &&& !r.2
}

/// `r` is what writing members or elements inside the open container of
/// `t` leaves: the output grows and the nesting keeps its depth.
pub open spec fn inside(t: JsonState, r: JsonState) -> bool {
    &&& grows(t, r)
    &&& r.1.len() == t.1.len()
    &&& r.1.drop_last() == t.1.drop_last()
    &&& (!t.2 ==> !r.2)
}

proof fn lemma_inside_refl(t: JsonState)
    ensures
        inside(t, t),
{
    assert(t.0.subrange(0, t.0.len() as int) =~= t.0);
}

proof fn lemma_inside_trans(a: JsonState, b: JsonState, c: JsonState)
    requires
        inside(a, b),
        inside(b, c),
    ensures
        inside(a, c),
{
    lemma_grows_trans(a, b, c);
}

proof fn lemma_value_step_written(s: JsonState, b: Seq<u8>)
    ensures
        value_written(s, value_step(s, b)),
{
    lemma_steps_grow(s, b, 0u8);
}

/// A container opened at `s`, filled and closed, is one value written.
proof fn lemma_container(s: JsonState, c: u8, inner: JsonState, c2: u8)
    requires
        inside(open_step(s, c), inner),
    ensures
        value_written(s, close_step(inner, c2)),
{
    let o = open_step(s, c);
    lemma_steps_grow(s, Seq::empty(), c);
    lemma_steps_grow(inner, Seq::empty(), c2);
    lemma_grows_trans(s, o, inner);
    lemma_grows_trans(s, inner, close_step(inner, c2));
    assert(o.1 == pre_value(s).1.push(true));
    assert(o.1.drop_last() =~= pre_value(s).1);
}

/// A key and then a value written after it, inside an object.
proof fn lemma_key_value(t: JsonState, k: Seq<u8>, r: JsonState)
    requires
        t.1.len() > 0,
        !t.2,
        value_written(key_step(t, k), r),
    ensures
        inside(t, r),
{
    lemma_steps_grow(t, k, 0u8);
    lemma_grows_trans(t, key_step(t, k), r);
    assert(pre_value(key_step(t, k)).1 == key_step(t, k).1);
    assert(pre_value(t).1.drop_last() =~= t.1.drop_last());
}

/// One element written inside an array (or one value after a key).
proof fn lemma_element(t: JsonState, r: JsonState)
    requires
        t.1.len() > 0,
        value_written(t, r),
    ensures
        inside(t, r),
{
    assert(pre_value(t).1.drop_last() =~= t.1.drop_last());
}

proof fn lemma_opt_raw_inside(t: JsonState, k: Seq<u8>, v: Option<Seq<u8>>)
    requires
        t.1.len() > 0,
        !t.2,
    ensures
        inside(t, opt_raw_field(t, k, v)),
{
    lemma_inside_refl(t);
    if let Some(b) = v {
        lemma_value_step_written(key_step(t, k), b);
        lemma_key_value(t, k, opt_raw_field(t, k, v));
    }
}

proof fn lemma_opt_members_inside(t: JsonState, fs: Seq<(Seq<u8>, Option<Seq<u8>>)>)
    requires
        t.1.len() > 0,
        !t.2,
    ensures
        inside(t, opt_members(t, fs)),
{
    lemma_opt_members(t, fs);
}

proof fn lemma_omi_value_written(s: JsonState, v: OmiValueView, nums: Seq<(u64, String)>)
    ensures
        value_written(s, omi_value_json(s, v, nums)),
{
    lemma_omi_value_grows(s, v, nums);
}

proof fn lemma_value_json_written(s: JsonState, v: ValueView, nums: Seq<(u64, String)>)
    ensures
        value_written(s, value_json(s, v, nums)),
{
    let o = open_step(s, 123u8);
    assert(o.1 == pre_value(s).1.push(true));
    let b = key_step(o, "v".spec_bytes());
    lemma_omi_value_written(b, v.v, nums);
    lemma_key_value(o, "v".spec_bytes(), omi_value_json(b, v.v, nums));
    let c = omi_value_json(b, v.v, nums);
    lemma_opt_raw_inside(c, "t".spec_bytes(), opt_number(nums, v.t));
    lemma_inside_trans(o, c, opt_raw_field(c, "t".spec_bytes(), opt_number(nums, v.t)));
    lemma_container(s, 123u8, opt_raw_field(c, "t".spec_bytes(), opt_number(nums, v.t)), 125u8);
}

proof fn lemma_values_inside(t: JsonState, vs: Seq<ValueView>, nums: Seq<(u64, String)>)
    requires
        t.1.len() > 0,
    ensures
        inside(t, values_json(t, vs, nums)),
    decreases vs.len(),
{
    if vs.len() == 0 {
        lemma_inside_refl(t);
    } else {
        lemma_values_inside(t, vs.drop_last(), nums);
        let p = values_json(t, vs.drop_last(), nums);
        lemma_value_json_written(p, vs.last(), nums);
        lemma_element(p, values_json(t, vs, nums));
        lemma_inside_trans(t, p, values_json(t, vs, nums));
    }
}

proof fn lemma_value_array_written(s: JsonState, vs: Seq<ValueView>, nums: Seq<(u64, String)>)
    ensures
        value_written(s, value_array_json(s, vs, nums)),
{
    let o = open_step(s, 91u8);
    assert(o.1 == pre_value(s).1.push(true));
    lemma_values_inside(o, vs, nums);
    lemma_container(s, 91u8, values_json(o, vs, nums), 93u8);
}

/// A read body is the present fields as members of one object.
proof fn lemma_read_body_members_eq(
    s: JsonState,
    path: Option<Seq<u8>>,
    rid: Option<Seq<u8>>,
    newest: Option<u64>,
    oldest: Option<u64>,
    begin: Option<Seq<u8>>,
    end: Option<Seq<u8>>,
    depth: Option<u64>,
    interval: Option<Seq<u8>>,
    callback: Option<Seq<u8>>,
)
    ensures
        read_body_json(s, path, rid, newest, oldest, begin, end, depth, interval, callback) == close_step(
            opt_members(open_step(s, 123u8), read_fields(path, rid, newest, oldest, begin, end, depth, interval, callback)),
            125u8,
        ),
{
    let t = open_step(s, 123u8);
    let fs = read_fields(path, rid, newest, oldest, begin, end, depth, interval, callback);
    reveal_with_fuel(opt_members, 10);
    lemma_opt_fields_raw(t, "path".spec_bytes(), path, None);
    let t1 = opt_str_field(t, "path".spec_bytes(), path);
    lemma_opt_fields_raw(t1, "rid".spec_bytes(), rid, None);
    let t2 = opt_str_field(t1, "rid".spec_bytes(), rid);
    lemma_opt_fields_raw(t2, "newest".spec_bytes(), None, newest);
    let t3 = opt_u64_field(t2, "newest".spec_bytes(), newest);
    lemma_opt_fields_raw(t3, "oldest".spec_bytes(), None, oldest);
    let t4 = opt_u64_field(t3, "oldest".spec_bytes(), oldest);
    let t5 = opt_raw_field(t4, "begin".spec_bytes(), begin);
    let t6 = opt_raw_field(t5, "end".spec_bytes(), end);
    lemma_opt_fields_raw(t6, "depth".spec_bytes(), None, depth);
    let t7 = opt_u64_field(t6, "depth".spec_bytes(), depth);
    let t8 = opt_raw_field(t7, "interval".spec_bytes(), interval);
    lemma_opt_fields_raw(t8, "callback".spec_bytes(), callback, None);
    assert(fs.drop_last().drop_last().drop_last().drop_last().drop_last().drop_last().drop_last().drop_last().drop_last() =~= Seq::<(Seq<u8>, Option<Seq<u8>>)>::empty());
}

proof fn lemma_read_body_written(
    s: JsonState,
    path: Option<Seq<u8>>,
    rid: Option<Seq<u8>>,
    newest: Option<u64>,
    oldest: Option<u64>,
    begin: Option<Seq<u8>>,
    end: Option<Seq<u8>>,
    depth: Option<u64>,
    interval: Option<Seq<u8>>,
    callback: Option<Seq<u8>>,
)
    ensures
        value_written(s, read_body_json(s, path, rid, newest, oldest, begin, end, depth, interval, callback)),
{
    lemma_read_body_members_eq(s, path, rid, newest, oldest, begin, end, depth, interval, callback);
    let t = open_step(s, 123u8);
    assert(t.1 == pre_value(s).1.push(true));
    lemma_opt_members_inside(t, read_fields(path, rid, newest, oldest, begin, end, depth, interval, callback));
    lemma_container(s, 123u8, opt_members(t, read_fields(path, rid, newest, oldest, begin, end, depth, interval, callback)), 125u8);
}

/// The members `"path":<path>,"v":<value>` and an optional time.
pub open spec fn path_value_inner(t: JsonState, path: Seq<u8>, v: OmiValue, tm: Option<u64>, nums: Seq<(u64, String)>) -> JsonState {
    opt_raw_field(
        omi_value_json(key_step(value_step(key_step(t, "path".spec_bytes()), quoted(path)), "v".spec_bytes()), v@, nums),
        "t".spec_bytes(),
        opt_number(nums, tm),
    )
}

proof fn lemma_path_value_inner(t: JsonState, path: Seq<u8>, v: OmiValue, tm: Option<u64>, nums: Seq<(u64, String)>)
    requires
        t.1.len() > 0,
        !t.2,
    ensures
        inside(t, path_value_inner(t, path, v, tm, nums)),
{
    let a = value_step(key_step(t, "path".spec_bytes()), quoted(path));
    lemma_value_step_written(key_step(t, "path".spec_bytes()), quoted(path));
    lemma_key_value(t, "path".spec_bytes(), a);
    let b = key_step(a, "v".spec_bytes());
    lemma_omi_value_written(b, v@, nums);
    lemma_key_value(a, "v".spec_bytes(), omi_value_json(b, v@, nums));
    let c = omi_value_json(b, v@, nums);
    lemma_opt_raw_inside(c, "t".spec_bytes(), opt_number(nums, tm));
    lemma_inside_trans(t, a, c);
    lemma_inside_trans(t, c, path_value_inner(t, path, v, tm, nums));
}

proof fn lemma_path_value_written(s: JsonState, path: Seq<u8>, v: OmiValue, tm: Option<u64>, nums: Seq<(u64, String)>)
    ensures
        value_written(s, path_value_json(s, path, v, tm, nums)),
{
    let t = open_step(s, 123u8);
    assert(t.1 == pre_value(s).1.push(true));
    lemma_path_value_inner(t, path, v, tm, nums);
    lemma_container(s, 123u8, path_value_inner(t, path, v, tm, nums), 125u8);
}

proof fn lemma_batch_inside(t: JsonState, items: Seq<WriteItem>, nums: Seq<(u64, String)>)
    requires
        t.1.len() > 0,
    ensures
        inside(t, crate::json::omi_writer::items_json(t, items, nums)),
    decreases items.len(),
{
    if items.len() == 0 {
        lemma_inside_refl(t);
    } else {
        lemma_batch_inside(t, items.drop_last(), nums);
        let p = crate::json::omi_writer::items_json(t, items.drop_last(), nums);
        let it = items.last();
        lemma_path_value_written(p, encode_utf8(it.path@), it.v, it.t, nums);
        lemma_element(p, crate::json::omi_writer::items_json(t, items, nums));
        lemma_inside_trans(t, p, crate::json::omi_writer::items_json(t, items, nums));
    }
}

/// A key, then a container that is one value.
proof fn lemma_key_container(t: JsonState, k: Seq<u8>, c: u8, inner: JsonState, c2: u8)
    requires
        t.1.len() > 0,
        !t.2,
        inside(open_step(key_step(t, k), c), inner),
    ensures
        inside(t, close_step(inner, c2)),
{
    lemma_container(key_step(t, k), c, inner, c2);
    lemma_key_value(t, k, close_step(inner, c2));
}

proof fn lemma_write_op_written(s: JsonState, op: WriteOp, nums: Seq<(u64, String)>)
    ensures
        value_written(s, write_op_json(s, op, nums)),
{
    match op {
        WriteOp::Single { path, v, t } => lemma_path_value_written(s, encode_utf8(path@), v, t, nums),
        WriteOp::Batch { items } => {
            let o = open_step(s, 123u8);
            assert(o.1 == pre_value(s).1.push(true));
            let x = key_step(o, "items".spec_bytes());
            let a = open_step(x, 91u8);
            assert(a.1 == pre_value(x).1.push(true));
            lemma_batch_inside(a, items@, nums);
            let inner = crate::json::omi_writer::items_json(a, items@, nums);
            lemma_key_container(o, "items".spec_bytes(), 91u8, inner, 93u8);
            lemma_container(s, 123u8, close_step(inner, 93u8), 125u8);
        },
        WriteOp::Tree { path, objects } => {
            let o = open_step(s, 123u8);
            assert(o.1 == pre_value(s).1.push(true));
            let a = value_step(key_step(o, "path".spec_bytes()), quoted(encode_utf8(path@)));
            lemma_value_step_written(key_step(o, "path".spec_bytes()), quoted(encode_utf8(path@)));
            lemma_key_value(o, "path".spec_bytes(), a);
            let x = key_step(a, "objects".spec_bytes());
            let b = open_step(x, 123u8);
            assert(b.1 == pre_value(x).1.push(true));
            lemma_children_grow(b, objects@, usize::MAX as nat, nums);
            let inner = children_json(b, objects@, usize::MAX as nat, nums);
            lemma_key_container(a, "objects".spec_bytes(), 123u8, inner, 125u8);
            lemma_inside_trans(o, a, close_step(inner, 125u8));
            lemma_container(s, 123u8, close_step(inner, 125u8), 125u8);
        },
    }
}

proof fn lemma_strings_inside(t: JsonState, v: Seq<Seq<u8>>)
    requires
        t.1.len() > 0,
    ensures
        inside(t, strings_step(t, v)),
    decreases v.len(),
{
    if v.len() == 0 {
        lemma_inside_refl(t);
    } else {
        lemma_strings_inside(t, v.drop_last());
        let p = strings_step(t, v.drop_last());
        lemma_value_step_written(p, quoted(v.last()));
        lemma_element(p, strings_step(t, v));
        lemma_inside_trans(t, p, strings_step(t, v));
    }
}

proof fn lemma_item_status_written(s: JsonState, i: ItemStatus)
    ensures
        value_written(s, item_status_json(s, i)),
{
    let o = open_step(s, 123u8);
    assert(o.1 == pre_value(s).1.push(true));
    let a = value_step(key_step(o, "path".spec_bytes()), quoted(encode_utf8(i.path@)));
    lemma_value_step_written(key_step(o, "path".spec_bytes()), quoted(encode_utf8(i.path@)));
    lemma_key_value(o, "path".spec_bytes(), a);
    let b = value_step(key_step(a, "status".spec_bytes()), text::decimal_digits(i.status as nat));
    lemma_value_step_written(key_step(a, "status".spec_bytes()), text::decimal_digits(i.status as nat));
    lemma_key_value(a, "status".spec_bytes(), b);
    let de = crate::json::serializer::opt_string_bytes(i.desc);
    lemma_opt_fields_raw(b, "desc".spec_bytes(), de, None);
    lemma_opt_raw_inside(b, "desc".spec_bytes(), quoted_opt(de));
    lemma_inside_trans(o, a, b);
    lemma_inside_trans(o, b, opt_str_field(b, "desc".spec_bytes(), de));
    lemma_container(s, 123u8, opt_str_field(b, "desc".spec_bytes(), de), 125u8);
}

proof fn lemma_statuses_inside(t: JsonState, items: Seq<ItemStatus>)
    requires
        t.1.len() > 0,
    ensures
        inside(t, statuses_json(t, items)),
    decreases items.len(),
{
    if items.len() == 0 {
        lemma_inside_refl(t);
    } else {
        lemma_statuses_inside(t, items.drop_last());
        let p = statuses_json(t, items.drop_last());
        lemma_item_status_written(p, items.last());
        lemma_element(p, statuses_json(t, items));
        lemma_inside_trans(t, p, statuses_json(t, items));
    }
}

proof fn lemma_result_written(s: JsonState, r: ResponseResult, nums: Seq<(u64, String)>)
    ensures
        value_written(s, result_json(s, r, nums)),
{
    match r {
        ResponseResult::Batch(items) => {
            let o = open_step(s, 91u8);
            assert(o.1 == pre_value(s).1.push(true));
            lemma_statuses_inside(o, items@);
            lemma_container(s, 91u8, statuses_json(o, items@), 93u8);
        },
        ResponseResult::Single(p) => match p {
            ResultPayload::Null => lemma_value_step_written(s, "null".spec_bytes()),
            ResultPayload::ReadValues { path, values } => {
                let o = open_step(s, 123u8);
                assert(o.1 == pre_value(s).1.push(true));
                let a = value_step(key_step(o, "path".spec_bytes()), quoted(encode_utf8(path@)));
                lemma_value_step_written(key_step(o, "path".spec_bytes()), quoted(encode_utf8(path@)));
                lemma_key_value(o, "path".spec_bytes(), a);
                let x = key_step(a, "values".spec_bytes());
                lemma_value_array_written(x, crate::odf::value::value_views(values@), nums);
                lemma_key_value(a, "values".spec_bytes(), value_array_json(x, crate::odf::value::value_views(values@), nums));
                lemma_inside_trans(o, a, value_array_json(x, crate::odf::value::value_views(values@), nums));
                lemma_container(s, 123u8, value_array_json(x, crate::odf::value::value_views(values@), nums), 125u8);
            },
        },
    }
}

proof fn lemma_response_written(s: JsonState, b: ResponseBody, nums: Seq<(u64, String)>)
    ensures
        value_written(s, response_json(s, b, nums)),
{
    let o = open_step(s, 123u8);
    assert(o.1 == pre_value(s).1.push(true));
    let a0 = value_step(key_step(o, "status".spec_bytes()), text::decimal_digits(b.status as nat));
    lemma_value_step_written(key_step(o, "status".spec_bytes()), text::decimal_digits(b.status as nat));
    lemma_key_value(o, "status".spec_bytes(), a0);
    let ri = crate::json::serializer::opt_string_bytes(b.rid);
    let de = crate::json::serializer::opt_string_bytes(b.desc);
    lemma_opt_fields_raw(a0, "rid".spec_bytes(), ri, None);
    let a1 = opt_str_field(a0, "rid".spec_bytes(), ri);
    lemma_opt_raw_inside(a0, "rid".spec_bytes(), quoted_opt(ri));
    lemma_opt_fields_raw(a1, "desc".spec_bytes(), de, None);
    let a = opt_str_field(a1, "desc".spec_bytes(), de);
    lemma_opt_raw_inside(a1, "desc".spec_bytes(), quoted_opt(de));
    lemma_inside_trans(o, a0, a1);
    lemma_inside_trans(o, a1, a);
    assert(a == response_open(s, b.status, ri, de));
    match b.result {
        Some(r) => {
            let x = key_step(a, "result".spec_bytes());
            lemma_result_written(x, r, nums);
            lemma_key_value(a, "result".spec_bytes(), result_json(x, r, nums));
            lemma_inside_trans(o, a, result_json(x, r, nums));
            lemma_container(s, 123u8, result_json(x, r, nums), 125u8);
        },
        None => lemma_container(s, 123u8, a, 125u8),
    }
}

proof fn lemma_operation_written(s: JsonState, op: Operation, nums: Seq<(u64, String)>)
    ensures
        value_written(s, operation_json(s, op, nums)),
{
    match op {
        Operation::Read(r) => lemma_read_body_written(
            s,
            crate::json::serializer::opt_string_bytes(r.path),
            crate::json::serializer::opt_string_bytes(r.rid),
            r.newest,
            r.oldest,
            opt_number(nums, r.begin),
            opt_number(nums, r.end),
            r.depth,
            opt_number(nums, r.interval),
            crate::json::serializer::opt_string_bytes(r.callback),
        ),
        Operation::Write(x) => lemma_write_op_written(s, x, nums),
        Operation::Delete(d) => {
            let o = open_step(s, 123u8);
            assert(o.1 == pre_value(s).1.push(true));
            let a = value_step(key_step(o, "path".spec_bytes()), quoted(encode_utf8(d.path@)));
            lemma_value_step_written(key_step(o, "path".spec_bytes()), quoted(encode_utf8(d.path@)));
            lemma_key_value(o, "path".spec_bytes(), a);
            lemma_container(s, 123u8, a, 125u8);
        },
        Operation::Cancel(c) => {
            let o = open_step(s, 123u8);
            assert(o.1 == pre_value(s).1.push(true));
            let x = key_step(o, "rid".spec_bytes());
            let a = open_step(x, 91u8);
            assert(a.1 == pre_value(x).1.push(true));
            lemma_strings_inside(a, crate::json::omi_writer::texts_utf8(c.rid@));
            let inner = strings_step(a, crate::json::omi_writer::texts_utf8(c.rid@));
            lemma_key_container(o, "rid".spec_bytes(), 91u8, inner, 93u8);
            lemma_container(s, 123u8, close_step(inner, 93u8), 125u8);
        },
        Operation::Response(b) => lemma_response_written(s, b, nums),
    }
}

/// The JSON of an O-MI message holds `"omi":<version>` and `"ttl":<ttl>`
/// as members, and the operation under its key (`"read":`, `"write":`,
/// `"delete":`, `"cancel":` or `"response":`), right after the time to live.
pub proof fn law_message_envelope(s: JsonState, m: OmiMessage, nums: Seq<(u64, String)>)
    ensures
        ({
            let out = message_json(s, m, nums).0;
            let from = s.0.len() as int;
            &&& has_member(out, from, "omi".spec_bytes(), quoted(encode_utf8(m.version@)))
            &&& has_member(out, from, "ttl".spec_bytes(), i64_text(m.ttl))
            &&& has_text(
                out,
                from,
                member_bytes("ttl".spec_bytes(), i64_text(m.ttl)) + seq![44u8] + quoted(operation_key(m.operation))
                    + seq![58u8],
            )
        }),
{
    let t = open_step(s, 123u8);
    lemma_steps_grow(s, Seq::empty(), 123u8);
    let fs = seq![
        ("omi".spec_bytes(), Some(quoted(encode_utf8(m.version@)))),
        ("ttl".spec_bytes(), Some(i64_text(m.ttl))),
    ];
    reveal_with_fuel(opt_members, 3);
    assert(fs.drop_last().drop_last() =~= Seq::<(Seq<u8>, Option<Seq<u8>>)>::empty());
    let a0 = member(t, "omi".spec_bytes(), quoted(encode_utf8(m.version@)));
    let a = member(a0, "ttl".spec_bytes(), i64_text(m.ttl));
    assert(opt_members(t, fs) == a);
    lemma_opt_members(t, fs);
    let key = operation_key(m.operation);
    let x = key_step(a, key);
    assert(x == envelope_open(s, encode_utf8(m.version@), m.ttl, key));
    let body = operation_json(x, m.operation, nums);
    lemma_operation_written(x, m.operation, nums);
    let g = close_step(body, 125u8);
    assert(message_json(s, m, nums) == g);
    lemma_steps_grow(body, Seq::empty(), 125u8);
    lemma_grows_trans(x, body, g);
    lemma_member(t, "omi".spec_bytes(), quoted(encode_utf8(m.version@)));
    lemma_member(a0, "ttl".spec_bytes(), i64_text(m.ttl));
    assert(!a.1.last());
    lemma_comma_after(a, key, g);
    lemma_members_then(t, fs, g);
    assert(fs[0].1 is Some && fs[1].1 is Some);
    lemma_has_member_from(g.0, s.0.len() as int, t.0.len() as int, fs[0].0, fs[0].1->0);
    lemma_has_member_from(g.0, s.0.len() as int, t.0.len() as int, fs[1].0, fs[1].1->0);
    // The ttl member, the comma and the operation's key stand together.
    let mt = member_bytes("ttl".spec_bytes(), i64_text(m.ttl));
    let p = mt + seq![44u8] + quoted(key) + seq![58u8];
    let k: int = a0.0.len() as int + 1;
    assert(a.0 =~= a0.0.push(44u8) + mt);
    assert(x.0 =~= a.0.push(44u8) + quoted(key) + seq![58u8]);
    assert(x.0.subrange(k, k + p.len()) =~= p);
    assert(occurs_at(x.0, k, p));
    lemma_grows_trans(t, a0, a);
    assert(k >= s.0.len());
    assert(has_text(x.0, s.0.len() as int, p));
    lemma_has_text_kept(x, g, s.0.len() as int, p);
}

/// The JSON of a value holds its time as the member `"t":<time>` when it
/// has one, and its value under `"v":`.
pub proof fn law_value_members(s: JsonState, v: ValueView, nums: Seq<(u64, String)>)
    ensures
        ({
            let out = value_json(s, v, nums).0;
            let from = s.0.len() as int;
            &&& has_text(out, from, quoted("v".spec_bytes()) + seq![58u8])
            &&& (v.t matches Some(b) ==> has_member(out, from, "t".spec_bytes(), crate::json::odf_writer::number_text(nums, b)))
        }),
{
    let o = open_step(s, 123u8);
    lemma_steps_grow(s, Seq::empty(), 123u8);
    assert(o.1 == pre_value(s).1.push(true));
    let x = key_step(o, "v".spec_bytes());
    let c = omi_value_json(x, v.v, nums);
    lemma_omi_value_written(x, v.v, nums);
    lemma_key_value(o, "v".spec_bytes(), c);
    let d = opt_raw_field(c, "t".spec_bytes(), opt_number(nums, v.t));
    lemma_opt_raw_inside(c, "t".spec_bytes(), opt_number(nums, v.t));
    let g = close_step(d, 125u8);
    lemma_steps_grow(d, Seq::empty(), 125u8);
    lemma_grows_trans(c, d, g);
    lemma_grows_trans(o, c, g);
    // "v": right after the opening brace.
    let pv = quoted("v".spec_bytes()) + seq![58u8];
    let k = pre_value(o).0.len() as int;
    assert(x.0 =~= pre_value(o).0 + pv);
    assert(x.0.subrange(k, k + pv.len()) =~= pv);
    lemma_steps_grow(o, "v".spec_bytes(), 0u8);
    lemma_grows_trans(x, c, g);
    assert(occurs_at(x.0, k, pv));
    assert(has_text(x.0, s.0.len() as int, pv));
    lemma_has_text_kept(x, g, s.0.len() as int, pv);
    if let Some(b) = v.t {
        let nt = crate::json::odf_writer::number_text(nums, b);
        assert(!c.1.last());
        lemma_member(c, "t".spec_bytes(), nt);
        assert(d == member(c, "t".spec_bytes(), nt));
        assert(g.0 == d.0.push(125u8));
        lemma_member_closed(d, g, c.0.len() as int, "t".spec_bytes(), nt);
        lemma_has_member_from(g.0, s.0.len() as int, c.0.len() as int, "t".spec_bytes(), nt);
    }
}

/// The JSON of a single write or batch item holds `"path":"<path>"` and,
/// when given, `"t":<time>` as members, and the value under `"v":`.
pub proof fn law_path_value_members(s: JsonState, path: Seq<u8>, v: OmiValue, tm: Option<u64>, nums: Seq<(u64, String)>)
    ensures
        ({
            let out = path_value_json(s, path, v, tm, nums).0;
            let from = s.0.len() as int;
            &&& has_member(out, from, "path".spec_bytes(), quoted(path))
            &&& has_text(out, from, quoted("v".spec_bytes()) + seq![58u8])
            &&& (tm matches Some(b) ==> has_member(out, from, "t".spec_bytes(), crate::json::odf_writer::number_text(nums, b)))
        }),
{
    let o = open_step(s, 123u8);
    lemma_steps_grow(s, Seq::empty(), 123u8);
    assert(o.1 == pre_value(s).1.push(true));
    let a = member(o, "path".spec_bytes(), quoted(path));
    lemma_member(o, "path".spec_bytes(), quoted(path));
    let x = key_step(a, "v".spec_bytes());
    let c = omi_value_json(x, v@, nums);
    lemma_omi_value_written(x, v@, nums);
    lemma_key_value(a, "v".spec_bytes(), c);
    let d = opt_raw_field(c, "t".spec_bytes(), opt_number(nums, tm));
    lemma_opt_raw_inside(c, "t".spec_bytes(), opt_number(nums, tm));
    let g = close_step(d, 125u8);
    assert(path_value_json(s, path, v, tm, nums) == g);
    lemma_steps_grow(d, Seq::empty(), 125u8);
    lemma_grows_trans(c, d, g);
    lemma_steps_grow(a, "v".spec_bytes(), 0u8);
    lemma_grows_trans(x, c, g);
    lemma_comma_after(a, "v".spec_bytes(), g);
    // the path member
    let fs = seq![("path".spec_bytes(), Some(quoted(path)))];
    reveal_with_fuel(opt_members, 2);
    assert(fs.drop_last() =~= Seq::<(Seq<u8>, Option<Seq<u8>>)>::empty());
    assert(opt_members(o, fs) == a);
    lemma_members_then(o, fs, g);
    assert(fs[0].1 is Some);
    lemma_has_member_from(g.0, s.0.len() as int, o.0.len() as int, fs[0].0, fs[0].1->0);
    // "v":
    let pv = quoted("v".spec_bytes()) + seq![58u8];
    let k: int = a.0.len() as int + 1;
    assert(x.0 =~= a.0.push(44u8) + pv);
    assert(x.0.subrange(k, k + pv.len()) =~= pv);
    lemma_steps_grow(a, "v".spec_bytes(), 0u8);
    lemma_grows_trans(x, c, g);
    assert(occurs_at(x.0, k, pv));
    lemma_grows_trans(o, a, g);
    assert(has_text(x.0, s.0.len() as int, pv));
    lemma_has_text_kept(x, g, s.0.len() as int, pv);
    if let Some(b) = tm {
        let nt = crate::json::odf_writer::number_text(nums, b);
        assert(!c.1.last());
        lemma_member(c, "t".spec_bytes(), nt);
        assert(d == member(c, "t".spec_bytes(), nt));
        assert(g.0 == d.0.push(125u8));
        lemma_member_closed(d, g, c.0.len() as int, "t".spec_bytes(), nt);
        lemma_has_member_from(g.0, s.0.len() as int, c.0.len() as int, "t".spec_bytes(), nt);
    }
}

/// The JSON of an item status holds `"path"`, `"status"` and, when given,
/// `"desc"` as members.
pub proof fn law_item_status_members(s: JsonState, i: ItemStatus)
    ensures
        ({
            let out = item_status_json(s, i).0;
            let from = s.0.len() as int;
            &&& has_member(out, from, "path".spec_bytes(), quoted(encode_utf8(i.path@)))
            &&& has_member(out, from, "status".spec_bytes(), text::decimal_digits(i.status as nat))
            &&& (i.desc matches Some(d) ==> has_member(out, from, "desc".spec_bytes(), quoted(encode_utf8(d@))))
        }),
{
    let t = open_step(s, 123u8);
    lemma_steps_grow(s, Seq::empty(), 123u8);
    let de = crate::json::serializer::opt_string_bytes(i.desc);
    let fs = seq![
        ("path".spec_bytes(), Some(quoted(encode_utf8(i.path@)))),
        ("status".spec_bytes(), Some(text::decimal_digits(i.status as nat))),
        ("desc".spec_bytes(), quoted_opt(de)),
    ];
    reveal_with_fuel(opt_members, 4);
    assert(fs.drop_last().drop_last().drop_last() =~= Seq::<(Seq<u8>, Option<Seq<u8>>)>::empty());
    let b = member(member(t, "path".spec_bytes(), quoted(encode_utf8(i.path@))), "status".spec_bytes(), text::decimal_digits(i.status as nat));
    lemma_opt_fields_raw(b, "desc".spec_bytes(), de, None);
    assert(opt_members(t, fs) == opt_str_field(b, "desc".spec_bytes(), de));
    assert(item_status_json(s, i) == close_step(opt_members(t, fs), 125u8));
    lemma_closed_members(t, fs);
    assert(fs[0].1 is Some && fs[1].1 is Some);
    lemma_has_member_from(item_status_json(s, i).0, s.0.len() as int, t.0.len() as int, fs[0].0, fs[0].1->0);
    lemma_has_member_from(item_status_json(s, i).0, s.0.len() as int, t.0.len() as int, fs[1].0, fs[1].1->0);
    if i.desc is Some {
        assert(fs[2].1 == Some(quoted(encode_utf8(i.desc->0@))));
        lemma_has_member_from(item_status_json(s, i).0, s.0.len() as int, t.0.len() as int, fs[2].0, fs[2].1->0);
    }
}

/// The JSON of a delete operation holds `"path"` as a member.
pub proof fn law_delete_member(s: JsonState, d: DeleteOp)
    ensures
        has_member(d.json_written(s).0, s.0.len() as int, "path".spec_bytes(), quoted(encode_utf8(d.path@))),
{
    let t = open_step(s, 123u8);
    lemma_steps_grow(s, Seq::empty(), 123u8);
    let fs = seq![("path".spec_bytes(), Some(quoted(encode_utf8(d.path@))))];
    reveal_with_fuel(opt_members, 2);
    assert(fs.drop_last() =~= Seq::<(Seq<u8>, Option<Seq<u8>>)>::empty());
    assert(d.json_written(s) == close_step(opt_members(t, fs), 125u8));
    lemma_closed_members(t, fs);
    assert(fs[0].1 is Some);
    lemma_has_member_from(d.json_written(s).0, s.0.len() as int, t.0.len() as int, fs[0].0, fs[0].1->0);
}

/// The JSON of a response body holds `"status"` and, when given, `"rid"` and
/// `"desc"` as members, and its result under `"result":` when it has one.
pub proof fn law_response_members(s: JsonState, b: ResponseBody, nums: Seq<(u64, String)>)
    ensures
        ({
            let out = response_json(s, b, nums).0;
            let from = s.0.len() as int;
            &&& has_member(out, from, "status".spec_bytes(), text::decimal_digits(b.status as nat))
            &&& (b.rid matches Some(r) ==> has_member(out, from, "rid".spec_bytes(), quoted(encode_utf8(r@))))
            &&& (b.desc matches Some(d) ==> has_member(out, from, "desc".spec_bytes(), quoted(encode_utf8(d@))))
            &&& (b.result is Some ==> has_text(out, from, quoted("result".spec_bytes()) + seq![58u8]))
        }),
{
    let t = open_step(s, 123u8);
    lemma_steps_grow(s, Seq::empty(), 123u8);
    let ri = crate::json::serializer::opt_string_bytes(b.rid);
    let de = crate::json::serializer::opt_string_bytes(b.desc);
    let fs = seq![
        ("status".spec_bytes(), Some(text::decimal_digits(b.status as nat))),
        ("rid".spec_bytes(), quoted_opt(ri)),
        ("desc".spec_bytes(), quoted_opt(de)),
    ];
    reveal_with_fuel(opt_members, 4);
    assert(fs.drop_last().drop_last().drop_last() =~= Seq::<(Seq<u8>, Option<Seq<u8>>)>::empty());
    let a0 = member(t, "status".spec_bytes(), text::decimal_digits(b.status as nat));
    lemma_opt_fields_raw(a0, "rid".spec_bytes(), ri, None);
    let a1 = opt_str_field(a0, "rid".spec_bytes(), ri);
    lemma_opt_fields_raw(a1, "desc".spec_bytes(), de, None);
    let a = opt_str_field(a1, "desc".spec_bytes(), de);
    assert(opt_members(t, fs) == a);
    assert(a == response_open(s, b.status, ri, de));
    lemma_opt_members(t, fs);
    lemma_member(t, "status".spec_bytes(), text::decimal_digits(b.status as nat));
    assert(a.0.len() > t.0.len()) by {
        assert(fs[0].1 is Some);
        assert(member_written(a.0, t.0.len() as int, fs[0].0, fs[0].1->0));
    }
    assert(!a.1.last());
    let g = response_json(s, b, nums);
    match b.result {
        Some(r) => {
            let x = key_step(a, "result".spec_bytes());
            lemma_result_written(x, r, nums);
            let rr = result_json(x, r, nums);
            lemma_steps_grow(rr, Seq::empty(), 125u8);
            lemma_grows_trans(x, rr, g);
            lemma_comma_after(a, "result".spec_bytes(), g);
            let pr = quoted("result".spec_bytes()) + seq![58u8];
            let k: int = a.0.len() as int + 1;
            assert(x.0 =~= a.0.push(44u8) + pr);
            assert(x.0.subrange(k, k + pr.len()) =~= pr);
            assert(occurs_at(x.0, k, pr));
            assert(has_text(x.0, s.0.len() as int, pr));
            lemma_has_text_kept(x, g, s.0.len() as int, pr);
        },
        None => {
            assert(g.0 == a.0.push(125u8));
            assert(g.0.subrange(0, a.0.len() as int) =~= a.0);
        },
    }
    lemma_members_then(t, fs, g);
    assert forall|j: int| 0 <= j < 3 && (#[trigger] fs[j]).1 is Some implies has_member(g.0, s.0.len() as int, fs[j].0, fs[j].1->0) by {
        lemma_has_member_from(g.0, s.0.len() as int, t.0.len() as int, fs[j].0, fs[j].1->0);
    }
    assert(fs[1].1 == quoted_opt(ri));
    assert(fs[2].1 == quoted_opt(de));
}

/// The text written for a double is that of the first entry of the table
/// with its bits, and `null` when no entry has them.
pub proof fn law_number_text(nums: Seq<(u64, String)>, bits: u64)
    ensures
        forall|i: int|
            0 <= i < nums.len() && (#[trigger] nums[i]).0 == bits && (forall|j: int| 0 <= j < i ==> nums[j].0 != bits)
                ==> crate::json::odf_writer::number_text(nums, bits) == encode_utf8(nums[i].1@),
        (forall|i: int| 0 <= i < nums.len() ==> (#[trigger] nums[i]).0 != bits) ==> crate::json::odf_writer::number_text(
            nums,
            bits,
        ) == "null".spec_bytes(),
    decreases nums.len(),
{
    if nums.len() > 0 {
        let rest = nums.drop_first();
        law_number_text(rest, bits);
        assert forall|i: int| 0 <= i < rest.len() implies rest[i] == nums[i + 1] by {}
        assert forall|i: int|
            0 <= i < nums.len() && (#[trigger] nums[i]).0 == bits && (forall|j: int| 0 <= j < i ==> nums[j].0 != bits)
                implies crate::json::odf_writer::number_text(nums, bits) == encode_utf8(nums[i].1@) by {
            if i > 0 {
                assert(nums[0].0 != bits);
                assert(rest[i - 1] == nums[i]);
                assert forall|j: int| 0 <= j < i - 1 implies rest[j].0 != bits by {
                    assert(rest[j] == nums[j + 1]);
                }
            }
        }
        if forall|i: int| 0 <= i < nums.len() ==> (#[trigger] nums[i]).0 != bits {
            assert(nums[0].0 != bits);
            assert forall|i: int| 0 <= i < rest.len() implies (#[trigger] rest[i]).0 != bits by {
                assert(rest[i] == nums[i + 1]);
            }
        }
    }
}

} // verus!
