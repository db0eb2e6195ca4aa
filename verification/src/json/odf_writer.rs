//! O-DF values, items and objects written as JSON. Numbers are held as the
//! bits of their doubles; their JSON texts come from a table that the caller
//! fills with the formatter of doubles.

use vstd::prelude::*;
use vstd::string::*;
use vstd::utf8::encode_utf8;
use crate::json::serializer::{close_step, key_step, open_step, opt_str_field, opt_string_bytes,
    quoted, value_step, JsonState, JsonWriter};
use crate::odf::object::{InfoItem, Object};
use crate::odf::value::{newest_of, value_views, RingBuffer, Value, ValueView};
use crate::odf::{OmiValue, OmiValueView};

verus! {

/// The JSON text that the table `nums` gives for the double with bits
/// `bits`: that of its first entry for those bits, if any.
pub open spec fn number_entry(nums: Seq<(u64, String)>, bits: u64) -> Option<Seq<u8>>
    decreases nums.len(),
{
    if nums.len() == 0 {
        None
    } else if nums[0].0 == bits {
        Some(encode_utf8(nums[0].1@))
    } else {
        number_entry(nums.drop_first(), bits)
    }
}

/// The JSON text written for the double with bits `bits`: the table's text,
/// or `null` for a double the table does not list.
pub open spec fn number_text(nums: Seq<(u64, String)>, bits: u64) -> Seq<u8> {
    match number_entry(nums, bits) {
        Some(b) => b,
        None => "null".spec_bytes(),
    }
}

/// The table's text for the double with bits `bits`, if it lists one.
pub fn number_json(nums: &Vec<(u64, String)>, bits: u64) -> (r: Option<&str>)
    ensures
        match r {
            Some(t) => number_entry(nums@, bits) == Some(t.spec_bytes()),
            None => number_entry(nums@, bits) is None,
        },
{
    let mut i: usize = 0;
    proof {
        assert(nums@.skip(0) =~= nums@);
    }
    while i < nums.len()
        invariant
            i <= nums@.len(),
            number_entry(nums@, bits) == number_entry(nums@.skip(i as int), bits),
        decreases nums@.len() - i,
    {
        if nums[i].0 == bits {
            return Some(nums[i].1.as_str());
        }
        proof {
            assert(nums@.skip(i as int).drop_first() =~= nums@.skip(i + 1));
        }
        i = i + 1;
    }
    None
}

/// The state after a number value.
pub open spec fn number_step(s: JsonState, nums: Seq<(u64, String)>, bits: u64) -> JsonState {
    value_step(s, number_text(nums, bits))
}

/// Write the double with bits `bits` as a JSON number, by the table.
pub fn write_number(w: &mut JsonWriter, nums: &Vec<(u64, String)>, bits: u64)
    ensures
        final(w).state() == number_step(old(w).state(), nums@, bits),
{
    match number_json(nums, bits) {
        Some(t) => w.raw_json(t),
        None => w.null(),
    }
}

/// The state after an optional field of raw JSON text (nothing for `None`).
pub open spec fn opt_raw_field(s: JsonState, k: Seq<u8>, v: Option<Seq<u8>>) -> JsonState {
    match v {
        Some(b) => value_step(key_step(s, k), b),
        None => s,
    }
}

/// The table's texts of an optional double.
pub open spec fn opt_number(nums: Seq<(u64, String)>, t: Option<u64>) -> Option<Seq<u8>> {
    match t {
        Some(b) => Some(number_text(nums, b)),
        None => None,
    }
}

/// Write an optional number field by the table; nothing for `None`.
pub fn write_number_field_opt(w: &mut JsonWriter, k: &str, t: Option<u64>, nums: &Vec<(u64, String)>)
    ensures
        final(w).state() == opt_raw_field(old(w).state(), k.spec_bytes(), opt_number(nums@, t)),
{
    if let Some(b) = t {
        w.key(k);
        write_number(w, nums, b);
    }
}

/// The state after an O-DF value: `null`, a boolean, a number or a string.
pub open spec fn omi_value_json(s: JsonState, v: OmiValueView, nums: Seq<(u64, String)>) -> JsonState {
    match v {
        OmiValueView::Null => value_step(s, "null".spec_bytes()),
        OmiValueView::Bool(b) => value_step(
            s,
            if b {
                "true".spec_bytes()
            } else {
                "false".spec_bytes()
            },
        ),
        OmiValueView::Number(n) => number_step(s, nums, n),
        OmiValueView::Str(t) => value_step(s, quoted(encode_utf8(t))),
    }
}

/// Write an O-DF value.
pub fn write_omi_value(w: &mut JsonWriter, v: &OmiValue, nums: &Vec<(u64, String)>)
    ensures
        final(w).state() == omi_value_json(old(w).state(), v@, nums@),
{
    match v {
        OmiValue::Null => w.null(),
        OmiValue::Bool(b) => w.bool_val(*b),
        OmiValue::Number(n) => write_number(w, nums, *n),
        OmiValue::Str(s) => w.string(s.as_str()),
    }
}

/// The state after a timestamped value: `{"v":<value>,"t":<time>}`, without
/// `t` when there is none.
pub open spec fn value_json(s: JsonState, v: ValueView, nums: Seq<(u64, String)>) -> JsonState {
    close_step(
        opt_raw_field(
            omi_value_json(key_step(open_step(s, 123u8), "v".spec_bytes()), v.v, nums),
            "t".spec_bytes(),
            opt_number(nums, v.t),
        ),
        125u8,
    )
}

/// Write a timestamped value.
pub fn write_value(w: &mut JsonWriter, v: &Value, nums: &Vec<(u64, String)>)
    ensures
        final(w).state() == value_json(old(w).state(), v@, nums@),
{
    w.begin_object();
    w.key("v");
    write_omi_value(w, &v.v, nums);
    write_number_field_opt(w, "t", v.t, nums);
    w.end_object();
}

/// The state after the values, one after another.
pub open spec fn values_json(s: JsonState, vs: Seq<ValueView>, nums: Seq<(u64, String)>) -> JsonState
    decreases vs.len(),
{
    if vs.len() == 0 {
        s
    } else {
        value_json(values_json(s, vs.drop_last(), nums), vs.last(), nums)
    }
}

/// The state after an array of the values.
pub open spec fn value_array_json(s: JsonState, vs: Seq<ValueView>, nums: Seq<(u64, String)>) -> JsonState {
    close_step(values_json(open_step(s, 91u8), vs, nums), 93u8)
}

/// Write the values as a JSON array, in their order.
pub fn write_values(w: &mut JsonWriter, vs: &Vec<Value>, nums: &Vec<(u64, String)>)
    ensures
        final(w).state() == value_array_json(old(w).state(), value_views(vs@), nums@),
{
    w.begin_array();
    let ghost start = w.state();
    let ghost views = value_views(vs@);
    let mut i: usize = 0;
    while i < vs.len()
        invariant
            views == value_views(vs@),
            i <= vs@.len(),
            w.state() == values_json(start, views.take(i as int), nums@),
        decreases vs@.len() - i,
    {
        write_value(w, &vs[i], nums);
        proof {
            assert(views.take(i + 1).drop_last() =~= views.take(i as int));
        }
        i = i + 1;
    }
    proof {
        assert(views.take(i as int) =~= views);
    }
    w.end_array();
}

/// The state after a value history: its values as an array, newest first.
pub open spec fn ring_json(s: JsonState, c: Seq<ValueView>, nums: Seq<(u64, String)>) -> JsonState {
    value_array_json(s, newest_of(c, c.len()), nums)
}

/// Write a value history as a JSON array, newest first.
pub fn write_ring_buffer(w: &mut JsonWriter, rb: &RingBuffer, nums: &Vec<(u64, String)>)
    requires
        rb.wf(),
    ensures
        final(w).state() == ring_json(old(w).state(), rb.contents(), nums@),
{
    let values = rb.newest(rb.len());
    write_values(w, &values, nums);
}

/// The state after metadata entries, each as a key and its value.
pub open spec fn meta_json(s: JsonState, m: Seq<(String, OmiValue)>, nums: Seq<(u64, String)>) -> JsonState
    decreases m.len(),
{
    if m.len() == 0 {
        s
    } else {
        omi_value_json(
            key_step(meta_json(s, m.drop_last(), nums), encode_utf8(m.last().0@)),
            m.last().1@,
            nums,
        )
    }
}

/// The state after an InfoItem: `{"type":..,"desc":..,"meta":{..},"values":[..]}`,
/// leaving out absent type, description and metadata and an empty history.
pub open spec fn info_item_json(s: JsonState, i: InfoItem, nums: Seq<(u64, String)>) -> JsonState {
    let a = opt_str_field(
        opt_str_field(open_step(s, 123u8), "type".spec_bytes(), opt_string_bytes(i.type_uri)),
        "desc".spec_bytes(),
        opt_string_bytes(i.desc),
    );
    let b = match i.meta {
        Some(m) => close_step(meta_json(open_step(key_step(a, "meta".spec_bytes()), 123u8), m@, nums), 125u8),
        None => a,
    };
    let c = if i.values.contents().len() > 0 {
        ring_json(key_step(b, "values".spec_bytes()), i.values.contents(), nums)
    } else {
        b
    };
    close_step(c, 125u8)
}

/// An optional text borrowed.
fn opt_str(o: &Option<String>) -> (r: Option<&str>)
    ensures
        crate::json::serializer::opt_bytes(r) == opt_string_bytes(*o),
{
    match o {
        Some(t) => Some(t.as_str()),
        None => None,
    }
}

/// Write an InfoItem.
pub fn write_info_item(w: &mut JsonWriter, item: &InfoItem, nums: &Vec<(u64, String)>)
    requires
        item.values.wf(),
    ensures
        final(w).state() == info_item_json(old(w).state(), *item, nums@),
{
    w.begin_object();
    w.field_str_opt("type", opt_str(&item.type_uri));
    w.field_str_opt("desc", opt_str(&item.desc));
    if let Some(meta) = &item.meta {
        w.key("meta");
        w.begin_object();
        let ghost start = w.state();
        let mut i: usize = 0;
        while i < meta.len()
            invariant
                i <= meta@.len(),
                w.state() == meta_json(start, meta@.take(i as int), nums@),
            decreases meta@.len() - i,
        {
            w.key(meta[i].0.as_str());
            write_omi_value(w, &meta[i].1, nums);
            proof {
                assert(meta@.take(i + 1).drop_last() =~= meta@.take(i as int));
            }
            i = i + 1;
        }
        proof {
            assert(meta@.take(i as int) =~= meta@);
        }
        w.end_object();
    }
    if !item.values.is_empty() {
        w.key("values");
        write_ring_buffer(w, &item.values, nums);
    }
    w.end_object();
}

/// The state after named items, each as a key and the item.
pub open spec fn items_json(s: JsonState, items: Seq<(String, InfoItem)>, nums: Seq<(u64, String)>) -> JsonState
    decreases items.len(),
{
    if items.len() == 0 {
        s
    } else {
        info_item_json(
            key_step(items_json(s, items.drop_last(), nums), encode_utf8(items.last().0@)),
            items.last().1,
            nums,
        )
    }
}

/// The state after named child objects, each as a key and the object written
/// to depth `depth`.
pub open spec fn children_json(
    s: JsonState,
    c: Seq<(String, Object)>,
    depth: nat,
    nums: Seq<(u64, String)>,
) -> JsonState
    decreases c,
{
    if c.len() == 0 {
        s
    } else {
        object_json(
            key_step(children_json(s, c.drop_last(), depth, nums), encode_utf8(c.last().0@)),
            c.last().1,
            depth,
            nums,
        )
    }
}

/// The state after an object written to depth `depth`:
/// `{"id":..,"type":..,"desc":..,"items":{..},"objects":{..}}`. Depth 0
/// gives only id, type and description; each level down takes one from the
/// depth.
pub open spec fn object_json(s: JsonState, o: Object, depth: nat, nums: Seq<(u64, String)>) -> JsonState
    decreases o,
{
    let a = opt_str_field(
        opt_str_field(
            value_step(key_step(open_step(s, 123u8), "id".spec_bytes()), quoted(encode_utf8(o.id@))),
            "type".spec_bytes(),
            opt_string_bytes(o.type_uri),
        ),
        "desc".spec_bytes(),
        opt_string_bytes(o.desc),
    );
    let b = if depth > 0 {
        let b1 = match o.items {
            Some(v) => close_step(items_json(open_step(key_step(a, "items".spec_bytes()), 123u8), v@, nums), 125u8),
            None => a,
        };
        match o.objects {
            Some(v) => close_step(
                children_json(open_step(key_step(b1, "objects".spec_bytes()), 123u8), v@, (depth - 1) as nat, nums),
                125u8,
            ),
            None => b1,
        }
    } else {
        a
    };
    close_step(b, 125u8)
}

/// The value histories of named items are well formed.
pub open spec fn items_values_wf(s: Seq<(String, InfoItem)>) -> bool {
    forall|j: int| 0 <= j < s.len() ==> (#[trigger] s[j]).1.values.wf()
}

/// The value histories of named children are well formed, all the way down.
pub open spec fn children_values_wf(s: Seq<(String, Object)>) -> bool
    decreases s,
{
    if s.len() == 0 {
        true
    } else {
        children_values_wf(s.drop_last()) && object_values_wf(s.last().1)
    }
}

/// The value histories of an object's items are well formed, all the way
/// down (as the library's objects are).
pub open spec fn object_values_wf(o: Object) -> bool
    decreases o,
{
    &&& (o.items matches Some(v) ==> items_values_wf(v@))
    &&& match o.objects {
        Some(v) => children_values_wf(v@),
        None => true,
    }
}

proof fn lemma_children_values_wf(s: Seq<(String, Object)>)
    ensures
        children_values_wf(s) <==> forall|i: int| 0 <= i < s.len() ==> object_values_wf(#[trigger] s[i].1),
    decreases s.len(),
{
    if s.len() > 0 {
        let t = s.drop_last();
        lemma_children_values_wf(t);
        if children_values_wf(s) {
            assert forall|i: int| 0 <= i < s.len() implies object_values_wf(#[trigger] s[i].1) by {
                if i < s.len() - 1 {
                    assert(t[i] == s[i]);
                }
            }
        } else {
            if forall|i: int| 0 <= i < s.len() ==> object_values_wf(#[trigger] s[i].1) {
                assert forall|i: int| 0 <= i < t.len() implies object_values_wf(#[trigger] t[i].1) by {
                    assert(t[i] == s[i]);
                }
                assert(object_values_wf(s[s.len() - 1].1));
            }
        }
    }
}

/// Whether the value histories of an object's items are well formed, all
/// the way down.
pub fn object_values_ok(o: &Object) -> (r: bool)
    ensures
        r == object_values_wf(*o),
    decreases o,
{
    if let Some(items) = &o.items {
        let mut i: usize = 0;
        while i < items.len()
            invariant
                i <= items@.len(),
                o.items == Some(*items),
                forall|j: int| 0 <= j < i ==> (#[trigger] items@[j]).1.values.wf(),
            decreases items@.len() - i,
        {
            if !items[i].1.values.is_well_formed() {
                assert(!items@[i as int].1.values.wf());
                return false;
            }
            i = i + 1;
        }
    }
    if let Some(children) = &o.objects {
        proof {
            lemma_children_values_wf(children@);
        }
        let mut i: usize = 0;
        while i < children.len()
            invariant
                i <= children@.len(),
                o.objects == Some(*children),
                forall|j: int| 0 <= j < i ==> object_values_wf(#[trigger] children@[j].1),
            decreases children@.len() - i,
        {
            proof {
                let c = *children;
                let e = c@[i as int];
                assert(decreases_to!(o.objects => o.objects->0));
                assert(o.objects->0 == c);
                assert(decreases_to!(c => c@));
                assert(decreases_to!(c@ => e));
                assert(decreases_to!(e => e.1));
                assert(decreases_to!(*o => e.1));
            }
            if !object_values_ok(&children[i].1) {
                proof {
                    lemma_children_values_wf(children@);
                }
                assert(!object_values_wf(children@[i as int].1));
                assert(!children_values_wf(children@));
                return false;
            }
            i = i + 1;
        }
    }
    true
}

/// Write named items as the members of an object.
fn write_items(w: &mut JsonWriter, items: &Vec<(String, InfoItem)>, nums: &Vec<(u64, String)>)
    requires
        items_values_wf(items@),
    ensures
        final(w).state() == close_step(items_json(open_step(old(w).state(), 123u8), items@, nums@), 125u8),
{
    w.begin_object();
    let ghost start = w.state();
    let mut i: usize = 0;
    while i < items.len()
        invariant
            i <= items@.len(),
            items_values_wf(items@),
            w.state() == items_json(start, items@.take(i as int), nums@),
        decreases items@.len() - i,
    {
        w.key(items[i].0.as_str());
        write_info_item(w, &items[i].1, nums);
        proof {
            assert(items@.take(i + 1).drop_last() =~= items@.take(i as int));
        }
        i = i + 1;
    }
    proof {
        assert(items@.take(i as int) =~= items@);
    }
    w.end_object();
}

/// Write an object to depth `depth` (`usize::MAX` for all of it): depth 0
/// writes only its id, type and description, depth 1 also its items and its
/// children to depth 0, and so on.
pub fn write_object_with_depth(w: &mut JsonWriter, o: &Object, depth: usize, nums: &Vec<(u64, String)>)
    requires
        object_values_wf(*o),
    ensures
        final(w).state() == object_json(old(w).state(), *o, depth as nat, nums@),
    decreases o,
{
    w.begin_object();
    w.field_str("id", o.id.as_str());
    w.field_str_opt("type", opt_str(&o.type_uri));
    w.field_str_opt("desc", opt_str(&o.desc));
    if depth > 0 {
        if let Some(items) = &o.items {
            w.key("items");
            write_items(w, items, nums);
        }
        if let Some(children) = &o.objects {
            proof {
                lemma_children_values_wf(children@);
            }
            w.key("objects");
            w.begin_object();
            let ghost start = w.state();
            let mut i: usize = 0;
            while i < children.len()
                invariant
                    i <= children@.len(),
                    o.objects == Some(*children),
                    depth > 0,
                    forall|j: int| 0 <= j < children@.len() ==> object_values_wf(#[trigger] children@[j].1),
                    w.state() == children_json(start, children@.take(i as int), (depth - 1) as nat, nums@),
                decreases children@.len() - i,
            {
                w.key(children[i].0.as_str());
                proof {
                    let c = *children;
                    let e = c@[i as int];
                    assert(decreases_to!(*o => o.objects));
                    assert(decreases_to!(o.objects => o.objects->0));
                    assert(o.objects->0 == c);
                    assert(decreases_to!(c => c@));
                    assert(decreases_to!(c@ => e));
                    assert(decreases_to!(e => e.1));
                    assert(decreases_to!(*o => e.1));
                }
                write_object_with_depth(w, &children[i].1, depth - 1, nums);
                proof {
                    assert(children@.take(i + 1).drop_last() =~= children@.take(i as int));
                }
                i = i + 1;
            }
            proof {
                assert(children@.take(i as int) =~= children@);
            }
            w.end_object();
        }
    }
    w.end_object();
}

} // verus!
