//! Incremental JSON writer: builds output in a byte buffer, placing commas
//! automatically through a nesting stack.

use vstd::prelude::*;
use vstd::string::*;
use crate::text;
use crate::captive_portal::{ScannedNetwork, ConnectionState, ConnectionStatus};

verus! {

/// What a writer holds: the bytes written, for each open container whether
/// it still awaits its first element, and whether a key awaits its value.
pub type JsonState = (Seq<u8>, Seq<bool>, bool);

/// The separator step before a value or key: nothing right after a key;
/// otherwise a comma unless it is the first element of the open container,
/// which then no longer awaits its first element.
pub open spec fn pre_value(s: JsonState) -> JsonState {
    if s.2 {
        (s.0, s.1, false)
    } else if s.1.len() > 0 {
        (
            if !s.1.last() {
                s.0.push(44u8)
            } else {
                s.0
            },
            s.1.update(s.1.len() - 1, false),
            false,
        )
    } else {
        s
    }
}

/// Bytes appended to the output.
pub open spec fn emit(s: JsonState, b: Seq<u8>) -> JsonState {
    (s.0 + b, s.1, s.2)
}

/// A value: separator, then its bytes.
pub open spec fn value_step(s: JsonState, b: Seq<u8>) -> JsonState {
    emit(pre_value(s), b)
}

/// Opening a container with the given bracket.
pub open spec fn open_step(s: JsonState, bracket: u8) -> JsonState {
    let p = pre_value(s);
    (p.0.push(bracket), p.1.push(true), p.2)
}

/// Closing a container with the given bracket.
pub open spec fn close_step(s: JsonState, bracket: u8) -> JsonState {
    (s.0.push(bracket), if s.1.len() > 0 {
        s.1.drop_last()
    } else {
        s.1
    }, s.2)
}

/// A key: separator, the quoted key and a colon; its value follows without a comma.
pub open spec fn key_step(s: JsonState, k: Seq<u8>) -> JsonState {
    let p = pre_value(s);
    (p.0 + quoted(k) + seq![58u8], p.1, true)
}

/// A lower-case hexadecimal digit.
pub open spec fn hex_digit(v: u8) -> u8 {
    if v < 10 {
        (48 + v) as u8
    } else {
        (87 + v) as u8
    }
}

/// The escaped form of one byte inside a JSON string.
pub open spec fn escape_byte(b: u8) -> Seq<u8> {
    if b == 34 {
        seq![92u8, 34]
    } else if b == 92 {
        seq![92u8, 92]
    } else if b == 10 {
        seq![92u8, 110]
    } else if b == 13 {
        seq![92u8, 114]
    } else if b == 9 {
        seq![92u8, 116]
    } else if b == 8 {
        seq![92u8, 98]
    } else if b == 12 {
        seq![92u8, 102]
    } else if b < 32 {
        seq![92u8, 117, 48, 48, hex_digit(b / 16), hex_digit(b % 16)]
    } else {
        seq![b]
    }
}

/// The escaped form of a byte string.
pub open spec fn escape_bytes(s: Seq<u8>) -> Seq<u8>
    decreases s.len(),
{
    if s.len() == 0 {
        Seq::empty()
    } else {
        escape_bytes(s.drop_last()) + escape_byte(s.last())
    }
}

/// Escaped bytes hold no control byte (below 0x20), as JSON strings require.
pub proof fn lemma_escape_bytes_printable(s: Seq<u8>)
    ensures
        forall|i: int| 0 <= i < escape_bytes(s).len() ==> #[trigger] escape_bytes(s)[i] >= 32,
    decreases s.len(),
{
    if s.len() > 0 {
        lemma_escape_bytes_printable(s.drop_last());
        let a = escape_bytes(s.drop_last());
        let b = escape_byte(s.last());
        let x = s.last();
        if x < 32 && x != 10 && x != 13 && x != 9 && x != 8 && x != 12 {
            assert(x / 16 < 2);
            assert(x % 16 < 16);
        }
        assert forall|i: int| 0 <= i < (a + b).len() implies #[trigger] (a + b)[i] >= 32 by {
            if i < a.len() {
                assert((a + b)[i] == a[i]);
            } else {
                assert((a + b)[i] == b[i - a.len()]);
            }
        }
    }
}

/// A JSON string literal holding the bytes.
pub open spec fn quoted(s: Seq<u8>) -> Seq<u8> {
    seq![34u8] + escape_bytes(s) + seq![34u8]
}

/// The decimal text of a signed number.
pub open spec fn i64_text(n: i64) -> Seq<u8> {
    if n < 0 {
        seq![45u8] + text::decimal_digits((-n) as nat)
    } else {
        text::decimal_digits(n as nat)
    }
}

/// Lightweight JSON writer that builds output in a `Vec<u8>`.
///
/// Handles comma placement automatically via a nesting stack. The caller
/// is responsible for matching `begin_object`/`end_object` and
/// `begin_array`/`end_array` pairs, and for following each key by exactly
/// one value.
pub struct JsonWriter {
    buf: Vec<u8>,
    first: Vec<bool>,
    after_key: bool,
}

impl JsonWriter {
    /// The writer's state.
    pub closed spec fn state(&self) -> JsonState {
        (self.buf@, self.first@, self.after_key)
    }

    /// An empty writer.
    pub fn new() -> (r: Self)
        ensures
            r.state() == (Seq::<u8>::empty(), Seq::<bool>::empty(), false),
    {
        JsonWriter { buf: Vec::new(), first: Vec::new(), after_key: false }
    }

    /// An empty writer whose buffer has room for `cap` bytes.
    pub fn with_capacity(cap: usize) -> (r: Self)
        ensures
            r.state() == (Seq::<u8>::empty(), Seq::<bool>::empty(), false),
    {
        JsonWriter { buf: Vec::with_capacity(cap), first: Vec::new(), after_key: false }
    }

    /// Emit a comma separator if required before the next value or key.
    fn pre_value(&mut self)
        ensures
            final(self).state() == pre_value(old(self).state()),
    {
        if self.after_key {
            self.after_key = false;
            return;
        }
        let n = self.first.len();
        if n > 0 {
            if !self.first[n - 1] {
                self.buf.push(44u8);
            }
            self.first.set(n - 1, false);
        }
    }

    /// Appends bytes to the output.
    fn push_bytes(&mut self, b: &[u8])
        ensures
            final(self).state() == emit(old(self).state(), b@),
    {
        let ghost start = self.buf@;
        let mut i: usize = 0;
        while i < b.len()
            invariant
                i <= b@.len(),
                self.buf@ == start + b@.subrange(0, i as int),
                self.first@ == old(self).first@,
                self.after_key == old(self).after_key,
                start == old(self).buf@,
            decreases b@.len() - i,
        {
            self.buf.push(b[i]);
            proof {
                assert(b@.subrange(0, i + 1) =~= b@.subrange(0, i as int).push(b@[i as int]));
            }
            i = i + 1;
        }
        proof {
            assert(b@.subrange(0, i as int) =~= b@);
        }
    }

    /// Appends the bytes of a string literal.
    fn push_str_bytes(&mut self, s: &str)
        ensures
            final(self).state() == emit(old(self).state(), s.spec_bytes()),
    {
        self.push_bytes(s.as_bytes());
    }

    /// Appends the quoted, escaped form of `s`.
    fn write_escaped_str(&mut self, s: &str)
        ensures
            final(self).state() == emit(old(self).state(), quoted(s.spec_bytes())),
    {
        let b = s.as_bytes();
        let ghost start = self.buf@;
        self.buf.push(34u8);
        let mut i: usize = 0;
        while i < b.len()
            invariant
                i <= b@.len(),
                self.buf@ == start + seq![34u8] + escape_bytes(b@.subrange(0, i as int)),
                self.first@ == old(self).first@,
                self.after_key == old(self).after_key,
                start == old(self).buf@,
            decreases b@.len() - i,
        {
            let c = b[i];
            let ghost before = self.buf@;
            if c == 34 {
                self.buf.push(92u8);
                self.buf.push(34u8);
            } else if c == 92 {
                self.buf.push(92u8);
                self.buf.push(92u8);
            } else if c == 10 {
                self.buf.push(92u8);
                self.buf.push(110u8);
            } else if c == 13 {
                self.buf.push(92u8);
                self.buf.push(114u8);
            } else if c == 9 {
                self.buf.push(92u8);
                self.buf.push(116u8);
            } else if c == 8 {
                self.buf.push(92u8);
                self.buf.push(98u8);
            } else if c == 12 {
                self.buf.push(92u8);
                self.buf.push(102u8);
            } else if c < 32 {
                self.buf.push(92u8);
                self.buf.push(117u8);
                self.buf.push(48u8);
                self.buf.push(48u8);
                let hi = c / 16;
                let lo = c % 16;
                self.buf.push(if hi < 10 { 48 + hi } else { 87 + hi });
                self.buf.push(if lo < 10 { 48 + lo } else { 87 + lo });
            } else {
                self.buf.push(c);
            }
            proof {
                assert(self.buf@ =~= before + escape_byte(c));
                assert(b@.subrange(0, i + 1).drop_last() =~= b@.subrange(0, i as int));
                assert(b@.subrange(0, i + 1).last() == c);
            }
            i = i + 1;
        }
        self.buf.push(34u8);
        proof {
            assert(b@.subrange(0, i as int) =~= b@);
            assert(self.buf@ =~= start + quoted(b@));
        }
    }

    // -- Containers --
    pub fn begin_object(&mut self)
        ensures
            final(self).state() == open_step(old(self).state(), 123u8),
    {
        self.pre_value();
        self.buf.push(123u8);
        self.first.push(true);
    }

    pub fn end_object(&mut self)
        ensures
            final(self).state() == close_step(old(self).state(), 125u8),
    {
        self.first.pop();
        self.buf.push(125u8);
    }

    pub fn begin_array(&mut self)
        ensures
            final(self).state() == open_step(old(self).state(), 91u8),
    {
        self.pre_value();
        self.buf.push(91u8);
        self.first.push(true);
    }

    pub fn end_array(&mut self)
        ensures
            final(self).state() == close_step(old(self).state(), 93u8),
    {
        self.first.pop();
        self.buf.push(93u8);
    }

    // -- Keys --
    /// Write a JSON object key. Must be followed by exactly one value call.
    pub fn key(&mut self, k: &str)
        ensures
            final(self).state() == key_step(old(self).state(), k.spec_bytes()),
    {
        self.pre_value();
        self.write_escaped_str(k);
        self.buf.push(58u8);
        self.after_key = true;
        proof {
            assert(self.buf@ =~= pre_value(old(self).state()).0 + quoted(k.spec_bytes()) + seq![58u8]);
        }
    }

    // -- Primitive values --
    pub fn null(&mut self)
        ensures
            final(self).state() == value_step(old(self).state(), "null".spec_bytes()),
    {
        self.pre_value();
        self.push_str_bytes("null");
    }

    pub fn bool_val(&mut self, b: bool)
        ensures
            final(self).state() == value_step(
                old(self).state(),
                if b {
                    "true".spec_bytes()
                } else {
                    "false".spec_bytes()
                },
            ),
    {
        self.pre_value();
        if b {
            self.push_str_bytes("true");
        } else {
            self.push_str_bytes("false");
        }
    }

    pub fn i64_val(&mut self, n: i64)
        ensures
            final(self).state() == value_step(old(self).state(), i64_text(n)),
    {
        self.pre_value();
        let ghost start = self.buf@;
        if n < 0 {
            self.buf.push(45u8);
            let m: u64 = if n == i64::MIN {
                9223372036854775808u64
            } else {
                (-n) as u64
            };
            text::write_decimal(&mut self.buf, m);
        } else {
            text::write_decimal(&mut self.buf, n as u64);
        }
        proof {
            assert(self.buf@ =~= start + i64_text(n));
        }
    }

    pub fn u16_val(&mut self, n: u16)
        ensures
            final(self).state() == value_step(old(self).state(), text::decimal_digits(n as nat)),
    {
        self.pre_value();
        text::write_decimal(&mut self.buf, n as u64);
    }

    pub fn u64_val(&mut self, n: u64)
        ensures
            final(self).state() == value_step(old(self).state(), text::decimal_digits(n as nat)),
    {
        self.pre_value();
        text::write_decimal(&mut self.buf, n);
    }

    pub fn string(&mut self, s: &str)
        ensures
            final(self).state() == value_step(old(self).state(), quoted(s.spec_bytes())),
    {
        self.pre_value();
        self.write_escaped_str(s);
    }

    /// Write a pre-formatted JSON text directly into the output.
    /// The caller must ensure the text is valid JSON.
    pub fn raw_json(&mut self, json: &str)
        ensures
            final(self).state() == value_step(old(self).state(), json.spec_bytes()),
    {
        self.pre_value();
        self.push_str_bytes(json);
    }

    // -- Convenience: key + value in one call --
    pub fn field_str(&mut self, k: &str, v: &str)
        ensures
            final(self).state() == value_step(
                key_step(old(self).state(), k.spec_bytes()),
                quoted(v.spec_bytes()),
            ),
    {
        self.key(k);
        self.string(v);
    }

    pub fn field_i64(&mut self, k: &str, v: i64)
        ensures
            final(self).state() == value_step(key_step(old(self).state(), k.spec_bytes()), i64_text(v)),
    {
        self.key(k);
        self.i64_val(v);
    }

    pub fn field_u16(&mut self, k: &str, v: u16)
        ensures
            final(self).state() == value_step(
                key_step(old(self).state(), k.spec_bytes()),
                text::decimal_digits(v as nat),
            ),
    {
        self.key(k);
        self.u16_val(v);
    }

    pub fn field_u64(&mut self, k: &str, v: u64)
        ensures
            final(self).state() == value_step(
                key_step(old(self).state(), k.spec_bytes()),
                text::decimal_digits(v as nat),
            ),
    {
        self.key(k);
        self.u64_val(v);
    }

    pub fn field_bool(&mut self, k: &str, v: bool)
        ensures
            final(self).state() == value_step(
                key_step(old(self).state(), k.spec_bytes()),
                if v {
                    "true".spec_bytes()
                } else {
                    "false".spec_bytes()
                },
            ),
    {
        self.key(k);
        self.bool_val(v);
    }

    // -- Optional fields: nothing is written for `None` --
    pub fn field_str_opt(&mut self, k: &str, v: Option<&str>)
        ensures
            match v {
                Some(s) => final(self).state() == value_step(
                    key_step(old(self).state(), k.spec_bytes()),
                    quoted(s.spec_bytes()),
                ),
                None => final(self).state() == old(self).state(),
            },
    {
        if let Some(s) = v {
            self.field_str(k, s);
        }
    }

    pub fn field_u64_opt(&mut self, k: &str, v: Option<u64>)
        ensures
            match v {
                Some(n) => final(self).state() == value_step(
                    key_step(old(self).state(), k.spec_bytes()),
                    text::decimal_digits(n as nat),
                ),
                None => final(self).state() == old(self).state(),
            },
    {
        if let Some(n) = v {
            self.field_u64(k, n);
        }
    }

    /// Write a number given by its JSON text, as the formatter of doubles
    /// gives it (`null` for NaN and the infinities).
    pub fn f64_val(&mut self, text: &str)
        ensures
            final(self).state() == value_step(old(self).state(), text.spec_bytes()),
    {
        self.raw_json(text);
    }

    pub fn field_f64(&mut self, k: &str, text: &str)
        ensures
            final(self).state() == value_step(key_step(old(self).state(), k.spec_bytes()), text.spec_bytes()),
    {
        self.key(k);
        self.f64_val(text);
    }

    pub fn field_f64_opt(&mut self, k: &str, text: Option<&str>)
        ensures
            match text {
                Some(t) => final(self).state() == value_step(
                    key_step(old(self).state(), k.spec_bytes()),
                    t.spec_bytes(),
                ),
                None => final(self).state() == old(self).state(),
            },
    {
        if let Some(t) = text {
            self.field_f64(k, t);
        }
    }

    // -- Output --
    /// The text written: the bytes decoded as UTF-8 (every byte that the
    /// writer's methods write comes from UTF-8 texts or is ASCII).
    pub fn into_string(self) -> (r: String)
        ensures
            vstd::utf8::valid_utf8(self.state().0) ==> r@ == vstd::utf8::decode_utf8(self.state().0),
    {
        crate::gpio::encoding::utf8_lossy(self.buf.as_slice())
    }

    /// The bytes written.
    pub fn into_bytes(self) -> (r: Vec<u8>)
        ensures
            r@ == self.state().0,
    {
        self.buf
    }
}


/// Types that serialize themselves through a [`JsonWriter`].
pub trait ToJson {
    /// The writer's state after the value is written to a writer in state `s`.
    spec fn json_written(&self, s: JsonState) -> JsonState;

    /// Write the value.
    fn write_json(&self, w: &mut JsonWriter)
        ensures
            final(w).state() == self.json_written(old(w).state()),
    ;

    /// The JSON bytes of the value on their own.
    fn to_json_bytes(&self) -> (r: Vec<u8>)
        ensures
            r@ == self.json_written((Seq::<u8>::empty(), Seq::<bool>::empty(), false)).0,
    {
        let mut w = JsonWriter::new();
        self.write_json(&mut w);
        w.into_bytes()
    }

    /// The JSON text of the value on its own.
    fn to_json_string(&self) -> (r: String)
        ensures
            vstd::utf8::valid_utf8(self.json_written((Seq::<u8>::empty(), Seq::<bool>::empty(), false)).0)
                ==> r@ == vstd::utf8::decode_utf8(
                self.json_written((Seq::<u8>::empty(), Seq::<bool>::empty(), false)).0,
            ),
    {
        let mut w = JsonWriter::new();
        self.write_json(&mut w);
        w.into_string()
    }
}

/// The writer state after the envelope's opening: `{"omi":<version>,"ttl":<ttl>,"<op_key>":`.
pub open spec fn envelope_open(s: JsonState, version: Seq<u8>, ttl: i64, op_key: Seq<u8>) -> JsonState {
    key_step(
        value_step(
            key_step(
                value_step(key_step(open_step(s, 123u8), "omi".spec_bytes()), quoted(version)),
                "ttl".spec_bytes(),
            ),
            i64_text(ttl),
        ),
        op_key,
    )
}

/// Write the OMI message envelope; `write_op` writes the operation body.
pub fn write_omi_envelope<F: FnOnce(&mut JsonWriter)>(
    w: &mut JsonWriter,
    version: &str,
    ttl: i64,
    op_key: &str,
    write_op: F,
)
    requires
        forall|x: &mut JsonWriter| call_requires(write_op, (x,)),
    ensures
        exists|x: &mut JsonWriter|
            mut_ref_current(x).state() == envelope_open(
                old(w).state(),
                version.spec_bytes(),
                ttl,
                op_key.spec_bytes(),
            ) && call_ensures(write_op, (x,), ()) && final(w).state() == close_step(
                mut_ref_future(x).state(),
                125u8,
            ),
{
    w.begin_object();
    w.field_str("omi", version);
    w.field_i64("ttl", ttl);
    w.key(op_key);
    write_op(w);
    w.end_object();
}

/// The state after an optional string field (nothing for `None`).
pub open spec fn opt_str_field(s: JsonState, k: Seq<u8>, v: Option<Seq<u8>>) -> JsonState {
    match v {
        Some(b) => value_step(key_step(s, k), quoted(b)),
        None => s,
    }
}

/// View of an optional borrowed text as bytes.
pub open spec fn opt_bytes(v: Option<&str>) -> Option<Seq<u8>> {
    match v {
        Some(s) => Some(s.spec_bytes()),
        None => None,
    }
}

/// Write a delete operation body: `{"path":<path>}`.
pub fn write_delete_op(w: &mut JsonWriter, path: &str)
    ensures
        final(w).state() == close_step(
            value_step(key_step(open_step(old(w).state(), 123u8), "path".spec_bytes()), quoted(path.spec_bytes())),
            125u8,
        ),
{
    w.begin_object();
    w.field_str("path", path);
    w.end_object();
}

/// The state after writing each of the texts as a string value.
pub open spec fn strings_step(s: JsonState, v: Seq<Seq<u8>>) -> JsonState
    decreases v.len(),
{
    if v.len() == 0 {
        s
    } else {
        value_step(strings_step(s, v.drop_last()), quoted(v.last()))
    }
}

/// Byte views of borrowed texts.
pub open spec fn texts_bytes(v: Seq<&str>) -> Seq<Seq<u8>> {
    v.map_values(|t: &str| t.spec_bytes())
}

/// Write a cancel operation body: `{"rid":[<rid>,...]}`.
pub fn write_cancel_op(w: &mut JsonWriter, rids: &[&str])
    ensures
        final(w).state() == close_step(
            close_step(
                strings_step(
                    open_step(key_step(open_step(old(w).state(), 123u8), "rid".spec_bytes()), 91u8),
                    texts_bytes(rids@),
                ),
                93u8,
            ),
            125u8,
        ),
{
    w.begin_object();
    w.key("rid");
    w.begin_array();
    let ghost start = w.state();
    let ghost tb = texts_bytes(rids@);
    let mut i: usize = 0;
    while i < rids.len()
        invariant
            tb == texts_bytes(rids@),
            i <= rids@.len(),
            w.state() == strings_step(start, tb.take(i as int)),
        decreases rids@.len() - i,
    {
        w.string(rids[i]);
        proof {
            assert(tb.take(i + 1).drop_last() =~= tb.take(i as int));
            assert(tb.take(i + 1).last() == rids@[i as int].spec_bytes());
        }
        i = i + 1;
    }
    proof {
        assert(tb.take(i as int) =~= tb);
    }
    w.end_array();
    w.end_object();
}

/// Write one item status: `{"path":<path>,"status":<status>,"desc":<desc>}`
/// (without `desc` when there is none).
pub fn write_item_status(w: &mut JsonWriter, path: &str, status: u16, desc: Option<&str>)
    ensures
        final(w).state() == close_step(
            opt_str_field(
                value_step(
                    key_step(
                        value_step(
                            key_step(open_step(old(w).state(), 123u8), "path".spec_bytes()),
                            quoted(path.spec_bytes()),
                        ),
                        "status".spec_bytes(),
                    ),
                    text::decimal_digits(status as nat),
                ),
                "desc".spec_bytes(),
                opt_bytes(desc),
            ),
            125u8,
        ),
{
    w.begin_object();
    w.field_str("path", path);
    w.field_u16("status", status);
    w.field_str_opt("desc", desc);
    w.end_object();
}

/// The state after the opening of a response body: status, then `rid` and
/// `desc` when present.
pub open spec fn response_open(s: JsonState, status: u16, rid: Option<Seq<u8>>, desc: Option<Seq<u8>>) -> JsonState {
    opt_str_field(
        opt_str_field(
            value_step(
                key_step(open_step(s, 123u8), "status".spec_bytes()),
                text::decimal_digits(status as nat),
            ),
            "rid".spec_bytes(),
            rid,
        ),
        "desc".spec_bytes(),
        desc,
    )
}

/// Write a response body: `{"status":N,"rid":..,"desc":..,"result":..}`;
/// `write_result`, when given, writes the result value.
pub fn write_response_body<F: Fn(&mut JsonWriter)>(
    w: &mut JsonWriter,
    status: u16,
    rid: Option<&str>,
    desc: Option<&str>,
    write_result: Option<&F>,
)
    requires
        write_result matches Some(f) ==> forall|x: &mut JsonWriter| call_requires(f, (x,)),
    ensures
        match write_result {
            None => final(w).state() == close_step(
                response_open(old(w).state(), status, opt_bytes(rid), opt_bytes(desc)),
                125u8,
            ),
            Some(f) => exists|x: &mut JsonWriter|
                mut_ref_current(x).state() == key_step(
                    response_open(old(w).state(), status, opt_bytes(rid), opt_bytes(desc)),
                    "result".spec_bytes(),
                ) && call_ensures(f, (x,), ()) && final(w).state() == close_step(
                    mut_ref_future(x).state(),
                    125u8,
                ),
        },
{
    w.begin_object();
    w.field_u16("status", status);
    w.field_str_opt("rid", rid);
    w.field_str_opt("desc", desc);
    if let Some(write_fn) = write_result {
        w.key("result");
        write_fn(w);
    }
    w.end_object();
}

/// The JSON name of a connection state.
pub open spec fn state_name(st: ConnectionState) -> Seq<u8> {
    match st {
        ConnectionState::Idle => "idle".spec_bytes(),
        ConnectionState::Connecting => "connecting".spec_bytes(),
        ConnectionState::Connected => "connected".spec_bytes(),
        ConnectionState::Failed => "failed".spec_bytes(),
    }
}

/// View of an optional text as bytes.
pub open spec fn opt_string_bytes(v: Option<String>) -> Option<Seq<u8>> {
    match v {
        Some(s) => Some(vstd::utf8::encode_utf8(s@)),
        None => None,
    }
}

impl ToJson for ScannedNetwork {
    open spec fn json_written(&self, s: JsonState) -> JsonState {
        close_step(
                value_step(
                    key_step(
                        value_step(
                            key_step(
                                value_step(
                                    key_step(open_step(s, 123u8), "ssid".spec_bytes()),
                                    quoted(vstd::utf8::encode_utf8(self.ssid@)),
                                ),
                                "rssi".spec_bytes(),
                            ),
                            i64_text(self.rssi as i64),
                        ),
                        "auth".spec_bytes(),
                    ),
                    quoted(vstd::utf8::encode_utf8(self.auth@)),
                ),
                125u8,
            )
    }

    /// `{"ssid":<ssid>,"rssi":<rssi>,"auth":<auth>}`
    fn write_json(&self, w: &mut JsonWriter)
        ensures
            final(w).state() == close_step(
                value_step(
                    key_step(
                        value_step(
                            key_step(
                                value_step(
                                    key_step(open_step(old(w).state(), 123u8), "ssid".spec_bytes()),
                                    quoted(vstd::utf8::encode_utf8(self.ssid@)),
                                ),
                                "rssi".spec_bytes(),
                            ),
                            i64_text(self.rssi as i64),
                        ),
                        "auth".spec_bytes(),
                    ),
                    quoted(vstd::utf8::encode_utf8(self.auth@)),
                ),
                125u8,
            ),
    {
        w.begin_object();
        w.field_str("ssid", self.ssid.as_str());
        w.key("rssi");
        w.i64_val(self.rssi as i64);
        w.field_str("auth", self.auth.as_str());
        w.end_object();
    }
}

impl ToJson for ConnectionState {
    open spec fn json_written(&self, s: JsonState) -> JsonState {
        value_step(s, quoted(state_name(*self)))
    }

    /// The state's name as a JSON string.
    fn write_json(&self, w: &mut JsonWriter)
        ensures
            final(w).state() == value_step(old(w).state(), quoted(state_name(*self))),
    {
        w.string(
            match self {
                ConnectionState::Idle => "idle",
                ConnectionState::Connecting => "connecting",
                ConnectionState::Connected => "connected",
                ConnectionState::Failed => "failed",
            },
        );
    }
}

impl ToJson for ConnectionStatus {
    open spec fn json_written(&self, s: JsonState) -> JsonState {
        close_step(
                opt_str_field(
                    opt_str_field(
                        value_step(
                            key_step(open_step(s, 123u8), "state".spec_bytes()),
                            quoted(state_name(self.state)),
                        ),
                        "message".spec_bytes(),
                        opt_string_bytes(self.message),
                    ),
                    "ip".spec_bytes(),
                    opt_string_bytes(self.ip),
                ),
                125u8,
            )
    }

    /// `{"state":<state>,"message":<message>,"ip":<ip>}`, leaving out absent fields.
    fn write_json(&self, w: &mut JsonWriter)
        ensures
            final(w).state() == close_step(
                opt_str_field(
                    opt_str_field(
                        value_step(
                            key_step(open_step(old(w).state(), 123u8), "state".spec_bytes()),
                            quoted(state_name(self.state)),
                        ),
                        "message".spec_bytes(),
                        opt_string_bytes(self.message),
                    ),
                    "ip".spec_bytes(),
                    opt_string_bytes(self.ip),
                ),
                125u8,
            ),
    {
        w.begin_object();
        w.key("state");
        self.state.write_json(w);
        let message = match &self.message {
            Some(m) => Some(m.as_str()),
            None => None,
        };
        w.field_str_opt("message", message);
        let ip = match &self.ip {
            Some(m) => Some(m.as_str()),
            None => None,
        };
        w.field_str_opt("ip", ip);
        w.end_object();
    }
}
} // verus!
