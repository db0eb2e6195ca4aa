//! O-MI messages written as JSON: the envelope and each operation, in the
//! field order in which they are read back. Numbers go by a table of texts,
//! as in [`crate::json::odf_writer`].

use vstd::prelude::*;
use vstd::string::*;
use vstd::utf8::encode_utf8;
use crate::json::odf_writer::{children_json, number_json, omi_value_json, opt_number, opt_raw_field,
    value_array_json, write_object_with_depth, write_omi_value, write_values};
use crate::json::serializer::{close_step, envelope_open, key_step, opt_bytes, opt_str_field,
    opt_string_bytes, quoted, response_open, strings_step, value_step, open_step, JsonState,
    JsonWriter, ToJson};
use crate::odf::object::Object;
use crate::json::odf_writer::{object_values_ok, object_values_wf};
use crate::odf::value::value_views;
use crate::odf::OmiValue;
use crate::omi::{CancelOp, DeleteOp, ItemStatus, OmiMessage, Operation, ReadOp, ResponseBody,
    ResponseResult, ResultPayload, WriteItem, WriteOp};
use crate::text;

verus! {

/// The text for the double with bits `bits`: the table's, or `null`.
pub fn number_str(nums: &Vec<(u64, String)>, bits: u64) -> (r: &str)
    ensures
        r.spec_bytes() == crate::json::odf_writer::number_text(nums@, bits),
{
    match number_json(nums, bits) {
        Some(t) => t,
        None => {
            let n = "null";
            n
        },
    }
}

/// The texts of an optional double.
fn opt_number_str(nums: &Vec<(u64, String)>, t: Option<u64>) -> (r: Option<&str>)
    ensures
        opt_bytes(r) == opt_number(nums@, t),
{
    match t {
        Some(b) => Some(number_str(nums, b)),
        None => None,
    }
}

/// The state after an optional whole-number field (nothing for `None`).
pub open spec fn opt_u64_field(s: JsonState, k: Seq<u8>, v: Option<u64>) -> JsonState {
    match v {
        Some(n) => value_step(key_step(s, k), text::decimal_digits(n as nat)),
        None => s,
    }
}

/// The state after a read operation body with the given fields, numbers
/// given by their texts, absent ones left out.
pub open spec fn read_body_json(
    s: JsonState,
    path: Option<Seq<u8>>,
    rid: Option<Seq<u8>>,
    newest: Option<u64>,
    oldest: Option<u64>,
    begin: Option<Seq<u8>>,
    end: Option<Seq<u8>>,
    depth: Option<u64>,
    interval: Option<Seq<u8>>,
    callback: Option<Seq<u8>>,
) -> JsonState {
    let a = opt_u64_field(
        opt_u64_field(
            opt_str_field(opt_str_field(open_step(s, 123u8), "path".spec_bytes(), path), "rid".spec_bytes(), rid),
            "newest".spec_bytes(),
            newest,
        ),
        "oldest".spec_bytes(),
        oldest,
    );
    let b = opt_raw_field(
        opt_u64_field(
            opt_raw_field(opt_raw_field(a, "begin".spec_bytes(), begin), "end".spec_bytes(), end),
            "depth".spec_bytes(),
            depth,
        ),
        "interval".spec_bytes(),
        interval,
    );
    close_step(opt_str_field(b, "callback".spec_bytes(), callback), 125u8)
}

/// Write a read operation body; `begin`, `end` and `interval` are the JSON
/// texts of their numbers.
pub fn write_read_op(
    w: &mut JsonWriter,
    path: Option<&str>,
    rid: Option<&str>,
    newest: Option<u64>,
    oldest: Option<u64>,
    begin: Option<&str>,
    end: Option<&str>,
    depth: Option<u64>,
    interval: Option<&str>,
    callback: Option<&str>,
)
    ensures
        final(w).state() == read_body_json(
            old(w).state(),
            opt_bytes(path),
            opt_bytes(rid),
            newest,
            oldest,
            opt_bytes(begin),
            opt_bytes(end),
            depth,
            opt_bytes(interval),
            opt_bytes(callback),
        ),
{
    w.begin_object();
    w.field_str_opt("path", path);
    w.field_str_opt("rid", rid);
    w.field_u64_opt("newest", newest);
    w.field_u64_opt("oldest", oldest);
    w.field_f64_opt("begin", begin);
    w.field_f64_opt("end", end);
    w.field_u64_opt("depth", depth);
    w.field_f64_opt("interval", interval);
    w.field_str_opt("callback", callback);
    w.end_object();
}

/// The state after a read operation, its numbers by the table.
pub open spec fn read_op_json(s: JsonState, op: ReadOp, nums: Seq<(u64, String)>) -> JsonState {
    read_body_json(
        s,
        opt_string_bytes(op.path),
        opt_string_bytes(op.rid),
        op.newest,
        op.oldest,
        opt_number(nums, op.begin),
        opt_number(nums, op.end),
        op.depth,
        opt_number(nums, op.interval),
        opt_string_bytes(op.callback),
    )
}

/// An optional text borrowed.
fn opt_str(o: &Option<String>) -> (r: Option<&str>)
    ensures
        opt_bytes(r) == opt_string_bytes(*o),
{
    match o {
        Some(t) => Some(t.as_str()),
        None => None,
    }
}

/// Write a read operation.
pub fn write_read(w: &mut JsonWriter, op: &ReadOp, nums: &Vec<(u64, String)>)
    ensures
        final(w).state() == read_op_json(old(w).state(), *op, nums@),
{
    write_read_op(
        w,
        opt_str(&op.path),
        opt_str(&op.rid),
        op.newest,
        op.oldest,
        opt_number_str(nums, op.begin),
        opt_number_str(nums, op.end),
        op.depth,
        opt_number_str(nums, op.interval),
        opt_str(&op.callback),
    );
}

/// The state after a single write or a batch item:
/// `{"path":<path>,"v":<value>,"t":<time>}`, without `t` when there is none.
pub open spec fn path_value_json(
    s: JsonState,
    path: Seq<u8>,
    v: OmiValue,
    t: Option<u64>,
    nums: Seq<(u64, String)>,
) -> JsonState {
    close_step(
        opt_raw_field(
            omi_value_json(
                key_step(value_step(key_step(open_step(s, 123u8), "path".spec_bytes()), quoted(path)), "v".spec_bytes()),
                v@,
                nums,
            ),
            "t".spec_bytes(),
            opt_number(nums, t),
        ),
        125u8,
    )
}

/// Write a single-value write operation body.
pub fn write_write_single(w: &mut JsonWriter, path: &str, v: &OmiValue, t: Option<u64>, nums: &Vec<(u64, String)>)
    ensures
        final(w).state() == path_value_json(old(w).state(), path.spec_bytes(), *v, t, nums@),
{
    w.begin_object();
    w.field_str("path", path);
    w.key("v");
    write_omi_value(w, v, nums);
    match opt_number_str(nums, t) {
        Some(n) => w.field_f64("t", n),
        None => {},
    }
    w.end_object();
}

/// Write one item of a batch write: `{"path":<path>,"v":<value>,"t":<time>}`.
pub fn write_batch_item(w: &mut JsonWriter, path: &str, v: &OmiValue, t: Option<u64>, nums: &Vec<(u64, String)>)
    ensures
        final(w).state() == path_value_json(old(w).state(), path.spec_bytes(), *v, t, nums@),
{
    write_write_single(w, path, v, t, nums);
}

/// The state after a tree write body: `{"path":<path>,"objects":{..}}`,
/// each object written whole.
pub open spec fn tree_write_json(
    s: JsonState,
    path: Seq<u8>,
    objects: Seq<(String, Object)>,
    nums: Seq<(u64, String)>,
) -> JsonState {
    close_step(
        close_step(
            children_json(
                open_step(
                    key_step(value_step(key_step(open_step(s, 123u8), "path".spec_bytes()), quoted(path)), "objects".spec_bytes()),
                    123u8,
                ),
                objects,
                usize::MAX as nat,
                nums,
            ),
            125u8,
        ),
        125u8,
    )
}

/// The value histories of named objects are well formed, all the way down.
pub open spec fn objects_wf(objects: Seq<(String, Object)>) -> bool {
    forall|j: int| 0 <= j < objects.len() ==> object_values_wf(#[trigger] objects[j].1)
}

/// Write a tree write operation body.
pub fn write_write_tree(w: &mut JsonWriter, path: &str, objects: &Vec<(String, Object)>, nums: &Vec<(u64, String)>)
    requires
        objects_wf(objects@),
    ensures
        final(w).state() == tree_write_json(old(w).state(), path.spec_bytes(), objects@, nums@),
{
    w.begin_object();
    w.field_str("path", path);
    w.key("objects");
    w.begin_object();
    let ghost start = w.state();
    let mut i: usize = 0;
    while i < objects.len()
        invariant
            i <= objects@.len(),
            objects_wf(objects@),
            w.state() == children_json(start, objects@.take(i as int), usize::MAX as nat, nums@),
        decreases objects@.len() - i,
    {
        w.key(objects[i].0.as_str());
        write_object_with_depth(w, &objects[i].1, usize::MAX, nums);
        proof {
            assert(objects@.take(i + 1).drop_last() =~= objects@.take(i as int));
        }
        i = i + 1;
    }
    proof {
        assert(objects@.take(i as int) =~= objects@);
    }
    w.end_object();
    w.end_object();
}

/// The state after batch items, one after another.
pub open spec fn items_json(s: JsonState, items: Seq<WriteItem>, nums: Seq<(u64, String)>) -> JsonState
    decreases items.len(),
{
    if items.len() == 0 {
        s
    } else {
        let it = items.last();
        path_value_json(items_json(s, items.drop_last(), nums), encode_utf8(it.path@), it.v, it.t, nums)
    }
}

/// The state after a write operation.
pub open spec fn write_op_json(s: JsonState, op: WriteOp, nums: Seq<(u64, String)>) -> JsonState {
    match op {
        WriteOp::Single { path, v, t } => path_value_json(s, encode_utf8(path@), v, t, nums),
        WriteOp::Batch { items } => close_step(
            close_step(
                items_json(open_step(key_step(open_step(s, 123u8), "items".spec_bytes()), 91u8), items@, nums),
                93u8,
            ),
            125u8,
        ),
        WriteOp::Tree { path, objects } => tree_write_json(s, encode_utf8(path@), objects@, nums),
    }
}

/// The objects of a tree write are well formed.
pub open spec fn write_op_wf(op: WriteOp) -> bool {
    op matches WriteOp::Tree { objects, .. } ==> objects_wf(objects@)
}

/// Write a write operation.
pub fn write_write(w: &mut JsonWriter, op: &WriteOp, nums: &Vec<(u64, String)>)
    requires
        write_op_wf(*op),
    ensures
        final(w).state() == write_op_json(old(w).state(), *op, nums@),
{
    match op {
        WriteOp::Single { path, v, t } => write_write_single(w, path.as_str(), v, *t, nums),
        WriteOp::Batch { items } => {
            w.begin_object();
            w.key("items");
            w.begin_array();
            let ghost start = w.state();
            let mut i: usize = 0;
            while i < items.len()
                invariant
                    i <= items@.len(),
                    w.state() == items_json(start, items@.take(i as int), nums@),
                decreases items@.len() - i,
            {
                write_batch_item(w, items[i].path.as_str(), &items[i].v, items[i].t, nums);
                proof {
                    assert(items@.take(i + 1).drop_last() =~= items@.take(i as int));
                }
                i = i + 1;
            }
            proof {
                assert(items@.take(i as int) =~= items@);
            }
            w.end_array();
            w.end_object();
        },
        WriteOp::Tree { path, objects } => write_write_tree(w, path.as_str(), objects, nums),
    }
}

/// The state after an item status: `{"path":..,"status":N,"desc":..}`.
pub open spec fn item_status_json(s: JsonState, i: ItemStatus) -> JsonState {
    close_step(
        opt_str_field(
            value_step(
                key_step(
                    value_step(key_step(open_step(s, 123u8), "path".spec_bytes()), quoted(encode_utf8(i.path@))),
                    "status".spec_bytes(),
                ),
                text::decimal_digits(i.status as nat),
            ),
            "desc".spec_bytes(),
            opt_string_bytes(i.desc),
        ),
        125u8,
    )
}

impl ToJson for ItemStatus {
    open spec fn json_written(&self, s: JsonState) -> JsonState {
        item_status_json(s, *self)
    }

    /// `{"path":<path>,"status":<status>,"desc":<desc>}`, without an absent `desc`.
    fn write_json(&self, w: &mut JsonWriter)
        ensures
            final(w).state() == item_status_json(old(w).state(), *self),
    {
        crate::json::serializer::write_item_status(w, self.path.as_str(), self.status, opt_str(&self.desc));
    }
}

impl ToJson for DeleteOp {
    open spec fn json_written(&self, s: JsonState) -> JsonState {
        close_step(
            value_step(key_step(open_step(s, 123u8), "path".spec_bytes()), quoted(encode_utf8(self.path@))),
            125u8,
        )
    }

    /// `{"path":<path>}`
    fn write_json(&self, w: &mut JsonWriter)
        ensures
            final(w).state() == close_step(
                value_step(key_step(open_step(old(w).state(), 123u8), "path".spec_bytes()), quoted(encode_utf8(self.path@))),
                125u8,
            ),
    {
        crate::json::serializer::write_delete_op(w, self.path.as_str());
    }
}

/// The byte views of texts.
pub open spec fn texts_utf8(v: Seq<String>) -> Seq<Seq<u8>> {
    v.map_values(|t: String| encode_utf8(t@))
}

impl ToJson for CancelOp {
    open spec fn json_written(&self, s: JsonState) -> JsonState {
        close_step(
            close_step(
                strings_step(open_step(key_step(open_step(s, 123u8), "rid".spec_bytes()), 91u8), texts_utf8(self.rid@)),
                93u8,
            ),
            125u8,
        )
    }

    /// `{"rid":[<rid>,...]}`
    fn write_json(&self, w: &mut JsonWriter)
        ensures
            final(w).state() == close_step(
                close_step(
                    strings_step(
                        open_step(key_step(open_step(old(w).state(), 123u8), "rid".spec_bytes()), 91u8),
                        texts_utf8(self.rid@),
                    ),
                    93u8,
                ),
                125u8,
            ),
    {
        w.begin_object();
        w.key("rid");
        w.begin_array();
        let ghost start = w.state();
        let ghost tb = texts_utf8(self.rid@);
        let mut i: usize = 0;
        while i < self.rid.len()
            invariant
                tb == texts_utf8(self.rid@),
                i <= self.rid@.len(),
                w.state() == strings_step(start, tb.take(i as int)),
            decreases self.rid@.len() - i,
        {
            w.string(self.rid[i].as_str());
            proof {
                assert(tb.take(i + 1).drop_last() =~= tb.take(i as int));
            }
            i = i + 1;
        }
        proof {
            assert(tb.take(i as int) =~= tb);
        }
        w.end_array();
        w.end_object();
    }
}

/// The state after a result payload: `null`, or
/// `{"path":<path>,"values":[<value>,...]}`.
pub open spec fn payload_json(s: JsonState, p: ResultPayload, nums: Seq<(u64, String)>) -> JsonState {
    match p {
        ResultPayload::Null => value_step(s, "null".spec_bytes()),
        ResultPayload::ReadValues { path, values } => close_step(
            value_array_json(
                key_step(value_step(key_step(open_step(s, 123u8), "path".spec_bytes()), quoted(encode_utf8(path@))), "values".spec_bytes()),
                value_views(values@),
                nums,
            ),
            125u8,
        ),
    }
}

/// Write a result payload.
pub fn write_payload(w: &mut JsonWriter, p: &ResultPayload, nums: &Vec<(u64, String)>)
    ensures
        final(w).state() == payload_json(old(w).state(), *p, nums@),
{
    match p {
        ResultPayload::Null => w.null(),
        ResultPayload::ReadValues { path, values } => {
            w.begin_object();
            w.field_str("path", path.as_str());
            w.key("values");
            write_values(w, values, nums);
            w.end_object();
        },
    }
}

/// The state after item statuses, one after another.
pub open spec fn statuses_json(s: JsonState, items: Seq<ItemStatus>) -> JsonState
    decreases items.len(),
{
    if items.len() == 0 {
        s
    } else {
        item_status_json(statuses_json(s, items.drop_last()), items.last())
    }
}

/// The state after a response result: an array of item statuses, or the payload.
pub open spec fn result_json(s: JsonState, r: ResponseResult, nums: Seq<(u64, String)>) -> JsonState {
    match r {
        ResponseResult::Batch(items) => close_step(statuses_json(open_step(s, 91u8), items@), 93u8),
        ResponseResult::Single(p) => payload_json(s, p, nums),
    }
}

/// Write a response result.
pub fn write_result(w: &mut JsonWriter, r: &ResponseResult, nums: &Vec<(u64, String)>)
    ensures
        final(w).state() == result_json(old(w).state(), *r, nums@),
{
    match r {
        ResponseResult::Batch(items) => {
            w.begin_array();
            let ghost start = w.state();
            let mut i: usize = 0;
            while i < items.len()
                invariant
                    i <= items@.len(),
                    w.state() == statuses_json(start, items@.take(i as int)),
                decreases items@.len() - i,
            {
                items[i].write_json(w);
                proof {
                    assert(items@.take(i + 1).drop_last() =~= items@.take(i as int));
                }
                i = i + 1;
            }
            proof {
                assert(items@.take(i as int) =~= items@);
            }
            w.end_array();
        },
        ResponseResult::Single(p) => write_payload(w, p, nums),
    }
}

/// The state after a response body: `{"status":N,"rid":..,"desc":..,"result":..}`,
/// leaving out what is absent.
pub open spec fn response_json(s: JsonState, b: ResponseBody, nums: Seq<(u64, String)>) -> JsonState {
    let a = response_open(s, b.status, opt_string_bytes(b.rid), opt_string_bytes(b.desc));
    close_step(
        match b.result {
            Some(r) => result_json(key_step(a, "result".spec_bytes()), r, nums),
            None => a,
        },
        125u8,
    )
}

/// Write a response body.
pub fn write_response(w: &mut JsonWriter, b: &ResponseBody, nums: &Vec<(u64, String)>)
    ensures
        final(w).state() == response_json(old(w).state(), *b, nums@),
{
    w.begin_object();
    w.field_u16("status", b.status);
    w.field_str_opt("rid", opt_str(&b.rid));
    w.field_str_opt("desc", opt_str(&b.desc));
    if let Some(r) = &b.result {
        w.key("result");
        write_result(w, r, nums);
    }
    w.end_object();
}

/// The key under which an operation stands in the envelope.
pub open spec fn operation_key(op: Operation) -> Seq<u8> {
    match op {
        Operation::Read(_) => "read".spec_bytes(),
        Operation::Write(_) => "write".spec_bytes(),
        Operation::Delete(_) => "delete".spec_bytes(),
        Operation::Cancel(_) => "cancel".spec_bytes(),
        Operation::Response(_) => "response".spec_bytes(),
    }
}

/// The state after an operation's body.
pub open spec fn operation_json(s: JsonState, op: Operation, nums: Seq<(u64, String)>) -> JsonState {
    match op {
        Operation::Read(r) => read_op_json(s, r, nums),
        Operation::Write(x) => write_op_json(s, x, nums),
        Operation::Delete(d) => d.json_written(s),
        Operation::Cancel(c) => c.json_written(s),
        Operation::Response(b) => response_json(s, b, nums),
    }
}

/// The state after a whole message:
/// `{"omi":<version>,"ttl":<ttl>,"<operation>":<body>}`.
pub open spec fn message_json(s: JsonState, m: OmiMessage, nums: Seq<(u64, String)>) -> JsonState {
    close_step(
        operation_json(
            envelope_open(s, encode_utf8(m.version@), m.ttl, operation_key(m.operation)),
            m.operation,
            nums,
        ),
        125u8,
    )
}

/// The objects of a tree write in the message are well formed.
pub open spec fn message_wf(m: OmiMessage) -> bool {
    m.operation matches Operation::Write(x) ==> write_op_wf(x)
}

/// Whether the message can be written: the value histories in the objects
/// of a tree write are well formed (as the library's objects are).
pub fn message_writable(m: &OmiMessage) -> (r: bool)
    ensures
        r == message_wf(*m),
{
    if let Operation::Write(WriteOp::Tree { objects, .. }) = &m.operation {
        objects_writable(objects)
    } else {
        true
    }
}

/// Whether the value histories of named objects are well formed, all the
/// way down.
fn objects_writable(objects: &Vec<(String, Object)>) -> (r: bool)
    ensures
        r == objects_wf(objects@),
{
    let mut i: usize = 0;
    while i < objects.len()
        invariant
            i <= objects@.len(),
            forall|j: int| 0 <= j < i ==> object_values_wf(#[trigger] objects@[j].1),
        decreases objects@.len() - i,
    {
        if !object_values_ok(&objects[i].1) {
            assert(!object_values_wf(objects@[i as int].1));
            return false;
        }
        i = i + 1;
    }
    true
}

/// Write a whole O-MI message.
pub fn write_message(w: &mut JsonWriter, m: &OmiMessage, nums: &Vec<(u64, String)>)
    requires
        message_wf(*m),
    ensures
        final(w).state() == message_json(old(w).state(), *m, nums@),
{
    w.begin_object();
    w.field_str("omi", m.version.as_str());
    w.field_i64("ttl", m.ttl);
    match &m.operation {
        Operation::Read(op) => {
            w.key("read");
            write_read(w, op, nums);
        },
        Operation::Write(op) => {
            w.key("write");
            write_write(w, op, nums);
        },
        Operation::Delete(op) => {
            w.key("delete");
            op.write_json(w);
        },
        Operation::Cancel(op) => {
            w.key("cancel");
            op.write_json(w);
        },
        Operation::Response(body) => {
            w.key("response");
            write_response(w, body, nums);
        },
    }
    w.end_object();
}

/// The JSON bytes of a whole O-MI message.
pub fn message_json_bytes(m: &OmiMessage, nums: &Vec<(u64, String)>) -> (r: Vec<u8>)
    requires
        message_wf(*m),
    ensures
        r@ == message_json((Seq::<u8>::empty(), Seq::<bool>::empty(), false), *m, nums@).0,
{
    let mut w = JsonWriter::new();
    write_message(&mut w, m, nums);
    w.into_bytes()
}

} // verus!
