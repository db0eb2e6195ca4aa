//! InfoItems and Objects: the nodes of the O-DF tree.

use vstd::prelude::*;
use super::map::{entries_map, entry_keys, find_entry, lemma_entries_map, lemma_entries_map_insert,
    lemma_entries_map_remove, lemma_entries_map_update, lemma_sorted_unique, put_entry, sorted_keys,
    take_entry};
use super::value::{pushed, RingBuffer, Value, ValueView};
use super::{OmiValue, OmiValueView};
use crate::text::to_string;

verus! {

/// An InfoItem in the O-DF object tree: a named measurement or control point
/// with a history of timestamped values. Its metadata entries are sorted by key.
#[derive(Debug)]
pub struct InfoItem {
    pub type_uri: Option<String>,
    pub desc: Option<String>,
    pub meta: Option<Vec<(String, OmiValue)>>,
    pub values: RingBuffer,
}

/// The mathematical model of an [`InfoItem`].
pub struct InfoItemView {
    pub type_uri: Option<Seq<char>>,
    pub desc: Option<Seq<char>>,
    pub meta: Option<Map<Seq<char>, OmiValueView>>,
    pub values: Seq<ValueView>,
    pub capacity: nat,
}

/// The model of an optional text.
pub open spec fn opt_text(o: Option<String>) -> Option<Seq<char>> {
    match o {
        Some(s) => Some(s@),
        None => None,
    }
}

/// The model of an O-DF value (as a function value).
pub open spec fn omi_view(v: OmiValue) -> OmiValueView {
    v@
}

/// The model of metadata.
pub open spec fn meta_view(m: Option<Vec<(String, OmiValue)>>) -> Option<Map<Seq<char>, OmiValueView>> {
    match m {
        Some(v) => Some(entries_map(v@, |x: OmiValue| omi_view(x))),
        None => None,
    }
}

impl View for InfoItem {
    type V = InfoItemView;

    open spec fn view(&self) -> InfoItemView {
        InfoItemView {
            type_uri: opt_text(self.type_uri),
            desc: opt_text(self.desc),
            meta: meta_view(self.meta),
            values: self.values.contents(),
            capacity: self.values.cap(),
        }
    }
}

/// The model of an item's history after one more value.
pub open spec fn item_pushed(i: InfoItemView, v: ValueView) -> InfoItemView {
    InfoItemView { values: pushed(i.values, i.capacity, v), ..i }
}

/// A new item of the given capacity, as a model.
pub open spec fn new_item_view(capacity: nat) -> InfoItemView {
    InfoItemView { type_uri: None, desc: None, meta: None, values: Seq::empty(), capacity }
}

/// The value of metadata key `k`, if any.
pub open spec fn meta_get(m: Option<Map<Seq<char>, OmiValueView>>, k: Seq<char>) -> Option<OmiValueView> {
    match m {
        Some(map) => if map.contains_key(k) {
            Some(map[k])
        } else {
            None
        },
        None => None,
    }
}

impl InfoItem {
    /// The metadata is sorted by key and the history is a well-formed ring buffer.
    pub open spec fn wf(&self) -> bool {
        &&& self.values.wf()
        &&& (self.meta matches Some(m) ==> sorted_keys(entry_keys(m@)))
    }

    /// A new item with an empty history of `capacity` values.
    pub fn new(capacity: usize) -> (r: Self)
        requires
            capacity > 0,
        ensures
            r.wf(),
            r@ == new_item_view(capacity as nat),
    {
        InfoItem { type_uri: None, desc: None, meta: None, values: RingBuffer::new(capacity) }
    }

    /// The metadata value under `key`, if any.
    pub(crate) fn meta_value(&self, key: &str) -> (r: Option<&OmiValue>)
        requires
            self.wf(),
        ensures
            match meta_get(self@.meta, key@) {
                Some(w) => r matches Some(x) && x@ == w,
                None => r is None,
            },
    {
        match &self.meta {
            None => None,
            Some(m) => {
                proof {
                    lemma_sorted_unique(entry_keys(m@));
                    lemma_entries_map(m@, |x: OmiValue| omi_view(x));
                }
                match find_entry(m, key) {
                    Ok(i) => {
                        proof {
                            assert(entry_keys(m@)[i as int] == key@);
                        }
                        Some(&m[i].1)
                    },
                    Err(_) => None,
                }
            },
        }
    }

    /// Check if this InfoItem is writable (metadata `writable` is `true`). Defaults to false.
    pub fn is_writable(&self) -> (r: bool)
        requires
            self.wf(),
        ensures
            r == (meta_get(self@.meta, "writable"@) == Some(OmiValueView::Bool(true))),
    {
        match self.meta_value("writable") {
            Some(OmiValue::Bool(b)) => *b,
            _ => false,
        }
    }

    /// Check if this InfoItem is readable (metadata `readable` is not `false`). Defaults to true.
    pub fn is_readable(&self) -> (r: bool)
        requires
            self.wf(),
        ensures
            r == (meta_get(self@.meta, "readable"@) != Some(OmiValueView::Bool(false))),
    {
        match self.meta_value("readable") {
            Some(OmiValue::Bool(b)) => *b,
            _ => true,
        }
    }

    /// Add a new value to the history.
    pub fn add_value(&mut self, v: OmiValue, t: Option<u64>)
        requires
            old(self).wf(),
        ensures
            final(self).wf(),
            final(self)@ == item_pushed(old(self)@, (Value { v, t })@),
    {
        self.values.push(Value::new(v, t));
    }
}

/// An Object node in the O-DF hierarchy: child Objects and InfoItems, each
/// list sorted by name.
#[derive(Debug)]
pub struct Object {
    pub id: String,
    pub type_uri: Option<String>,
    pub desc: Option<String>,
    pub items: Option<Vec<(String, InfoItem)>>,
    pub objects: Option<Vec<(String, Object)>>,
}

/// The mathematical model of an [`Object`].
pub struct ObjectView {
    pub id: Seq<char>,
    pub type_uri: Option<Seq<char>>,
    pub desc: Option<Seq<char>>,
    pub items: Option<Map<Seq<char>, InfoItemView>>,
    pub objects: Option<Map<Seq<char>, ObjectView>>,
}

/// The model of an item (as a function value).
pub open spec fn item_view(i: InfoItem) -> InfoItemView {
    i@
}

/// The models of named items.
pub open spec fn items_map(s: Seq<(String, InfoItem)>) -> Map<Seq<char>, InfoItemView> {
    entries_map(s, |i: InfoItem| item_view(i))
}

/// Changing the item of an entry (its name kept) changes it in the map.
pub broadcast proof fn lemma_items_map_update(s: Seq<(String, InfoItem)>, i: int, e: (String, InfoItem))
    requires
        sorted_keys(entry_keys(s)),
        0 <= i < s.len(),
        e.0@ == s[i].0@,
    ensures
        #[trigger] items_map(s.update(i, e)) == items_map(s).insert(e.0@, e.1@),
{
    lemma_sorted_unique(entry_keys(s));
    lemma_entries_map_update(s, |x: InfoItem| item_view(x), i, e);
}

/// Changing the item of an entry (its name kept) for a well-formed one keeps
/// the items well formed.
pub broadcast proof fn lemma_items_wf_update(s: Seq<(String, InfoItem)>, i: int, e: (String, InfoItem))
    requires
        items_wf(s),
        0 <= i < s.len(),
        e.0@ == s[i].0@,
        e.1.wf(),
    ensures
        #[trigger] items_wf(s.update(i, e)),
{
    let u = s.update(i, e);
    assert(entry_keys(u) =~= entry_keys(s));
    assert forall|j: int| 0 <= j < u.len() implies (#[trigger] u[j]).1.wf() by {
        if j != i {
            assert(u[j] == s[j]);
        }
    }
}

/// The models of named children.
pub open spec fn child_map(s: Seq<(String, Object)>) -> Map<Seq<char>, ObjectView>
    decreases s,
{
    if s.len() == 0 {
        Map::empty()
    } else {
        child_map(s.drop_last()).insert(s.last().0@, object_view(s.last().1))
    }
}

/// The model of an object.
pub open spec fn object_view(o: Object) -> ObjectView
    decreases o,
{
    ObjectView {
        id: o.id@,
        type_uri: opt_text(o.type_uri),
        desc: opt_text(o.desc),
        items: match o.items {
            Some(v) => Some(items_map(v@)),
            None => None,
        },
        objects: match o.objects {
            Some(v) => Some(child_map(v@)),
            None => None,
        },
    }
}

impl View for Object {
    type V = ObjectView;

    open spec fn view(&self) -> ObjectView {
        object_view(*self)
    }
}

/// Named items sorted by name, each well formed.
pub open spec fn items_wf(s: Seq<(String, InfoItem)>) -> bool {
    &&& sorted_keys(entry_keys(s))
    &&& forall|i: int| 0 <= i < s.len() ==> (#[trigger] s[i]).1.wf()
}

/// Named children, each well formed.
pub open spec fn children_wf(s: Seq<(String, Object)>) -> bool
    decreases s,
{
    if s.len() == 0 {
        true
    } else {
        children_wf(s.drop_last()) && object_wf(s.last().1)
    }
}

/// Items and children sorted by name, all well formed.
pub open spec fn object_wf(o: Object) -> bool
    decreases o,
{
    &&& (o.items matches Some(v) ==> items_wf(v@))
    &&& match o.objects {
        Some(v) => sorted_keys(entry_keys(v@)) && children_wf(v@),
        None => true,
    }
}

/// The models of children are their map through [`object_view`].
pub proof fn lemma_child_map(s: Seq<(String, Object)>)
    ensures
        child_map(s) == entries_map(s, |o: Object| object_view(o)),
    decreases s.len(),
{
    if s.len() > 0 {
        lemma_child_map(s.drop_last());
    }
}

/// Each child of well-formed children is well formed, and conversely.
pub proof fn lemma_children_wf(s: Seq<(String, Object)>)
    ensures
        children_wf(s) <==> forall|i: int| 0 <= i < s.len() ==> object_wf(#[trigger] s[i].1),
    decreases s.len(),
{
    if s.len() > 0 {
        let t = s.drop_last();
        lemma_children_wf(t);
        if children_wf(s) {
            assert forall|i: int| 0 <= i < s.len() implies object_wf(#[trigger] s[i].1) by {
                if i < s.len() - 1 {
                    assert(t[i] == s[i]);
                }
            }
        }
        if forall|i: int| 0 <= i < s.len() ==> object_wf(#[trigger] s[i].1) {
            assert forall|i: int| 0 <= i < t.len() implies object_wf(#[trigger] t[i].1) by {
                assert(t[i] == s[i]);
            }
            assert(object_wf(s[s.len() - 1].1));
        }
    }
}

/// Changing the object of an entry (its name kept) changes it in the map.
pub broadcast proof fn lemma_child_map_update(s: Seq<(String, Object)>, i: int, e: (String, Object))
    requires
        sorted_keys(entry_keys(s)),
        0 <= i < s.len(),
        e.0@ == s[i].0@,
    ensures
        #[trigger] child_map(s.update(i, e)) == child_map(s).insert(e.0@, e.1@),
{
    lemma_sorted_unique(entry_keys(s));
    lemma_child_map(s);
    lemma_child_map(s.update(i, e));
    lemma_entries_map_update(s, |o: Object| object_view(o), i, e);
}

/// Changing the object of an entry (its name kept) for a well-formed one
/// keeps the children well formed and their names in place.
pub broadcast proof fn lemma_children_wf_update(s: Seq<(String, Object)>, i: int, e: (String, Object))
    requires
        children_wf(s),
        0 <= i < s.len(),
        e.0@ == s[i].0@,
        object_wf(e.1),
    ensures
        #[trigger] children_wf(s.update(i, e)),
        entry_keys(s.update(i, e)) == entry_keys(s),
{
    let u = s.update(i, e);
    assert(entry_keys(u) =~= entry_keys(s));
    lemma_children_wf(s);
    assert forall|j: int| 0 <= j < u.len() implies object_wf(#[trigger] u[j].1) by {
        if j != i {
            assert(u[j] == s[j]);
        }
    }
    lemma_children_wf(u);
}

/// A new object with the given id and nothing in it, as a model.
pub open spec fn new_object_view(id: Seq<char>) -> ObjectView {
    ObjectView { id, type_uri: None, desc: None, items: None, objects: None }
}

/// The child at `i` of sorted, well-formed children, to change in place.
pub(crate) fn child_entry_mut(v: &mut Vec<(String, Object)>, i: usize) -> (r: &mut Object)
    requires
        i < old(v)@.len(),
        sorted_keys(entry_keys(old(v)@)),
        children_wf(old(v)@),
    ensures
        *r == old(v)@[i as int].1,
        child_map(final(v)@) == child_map(old(v)@).insert(old(v)@[i as int].0@, (*final(r))@),
        entry_keys(final(v)@) == entry_keys(old(v)@),
        (*final(r)).wf() ==> children_wf(final(v)@),
{
    broadcast use {lemma_child_map_update, lemma_children_wf_update};
    &mut v[i].1
}

impl Object {
    /// Items and children are sorted by name, and all well formed.
    pub open spec fn wf(&self) -> bool {
        object_wf(*self)
    }

    /// A new object with the given id and nothing in it.
    pub fn new(id: &str) -> (r: Self)
        ensures
            r.wf(),
            r@ == new_object_view(id@),
    {
        Object { id: to_string(id), type_uri: None, desc: None, items: None, objects: None }
    }

    /// The item named `name`, if any.
    pub fn get_item(&self, name: &str) -> (r: Option<&InfoItem>)
        requires
            self.wf(),
        ensures
            match self@.items {
                Some(m) => if m.contains_key(name@) {
                    r matches Some(x) && x@ == m[name@] && x.wf()
                } else {
                    r is None
                },
                None => r is None,
            },
    {
        match &self.items {
            None => None,
            Some(v) => {
                proof {
                    lemma_sorted_unique(entry_keys(v@));
                    lemma_entries_map(v@, |i: InfoItem| item_view(i));
                }
                match find_entry(v, name) {
                    Ok(i) => {
                        proof {
                            assert(entry_keys(v@)[i as int] == name@);
                        }
                        Some(&v[i].1)
                    },
                    Err(_) => None,
                }
            },
        }
    }

    /// The child object named `id`, if any.
    pub fn get_child(&self, id: &str) -> (r: Option<&Object>)
        requires
            self.wf(),
        ensures
            match self@.objects {
                Some(m) => if m.contains_key(id@) {
                    r matches Some(x) && x@ == m[id@] && x.wf()
                } else {
                    r is None
                },
                None => r is None,
            },
    {
        match &self.objects {
            None => None,
            Some(v) => {
                proof {
                    lemma_sorted_unique(entry_keys(v@));
                    lemma_child_map(v@);
                    lemma_entries_map(v@, |o: Object| object_view(o));
                    lemma_children_wf(v@);
                }
                match find_entry(v, id) {
                    Ok(i) => {
                        proof {
                            assert(entry_keys(v@)[i as int] == id@);
                        }
                        Some(&v[i].1)
                    },
                    Err(_) => None,
                }
            },
        }
    }
}

/// A map, or the empty map where there is none.
pub open spec fn or_empty<W>(m: Option<Map<Seq<char>, W>>) -> Map<Seq<char>, W> {
    match m {
        Some(m) => m,
        None => Map::empty(),
    }
}

/// A map with `k` taken out, or none where nothing is left.
pub open spec fn without_key<W>(m: Option<Map<Seq<char>, W>>, k: Seq<char>) -> Option<Map<Seq<char>, W>> {
    match m {
        Some(m) => if m.remove(k) == Map::<Seq<char>, W>::empty() {
            None
        } else {
            Some(m.remove(k))
        },
        None => None,
    }
}

/// Taking a key out and putting a value back under it is putting the value.
pub proof fn lemma_without_then_insert<W>(m: Option<Map<Seq<char>, W>>, k: Seq<char>, x: W)
    ensures
        or_empty(without_key(m, k)).insert(k, x) == or_empty(m).insert(k, x),
{
    match m {
        Some(mm) => {
            if mm.remove(k) == Map::<Seq<char>, W>::empty() {
                assert forall|j: Seq<char>| #[trigger] mm.contains_key(j) implies j == k by {
                    if j != k {
                        assert(mm.remove(k).contains_key(j));
                    }
                }
            }
            assert(or_empty(without_key(m, k)).insert(k, x) =~= mm.insert(k, x));
        },
        None => {},
    }
}

/// An object's model with its items replaced.
pub open spec fn with_items(o: ObjectView, items: Option<Map<Seq<char>, InfoItemView>>) -> ObjectView {
    ObjectView { items, ..o }
}

/// An object's model with its children replaced.
pub open spec fn with_objects(o: ObjectView, objects: Option<Map<Seq<char>, ObjectView>>) -> ObjectView {
    ObjectView { objects, ..o }
}

/// Entries are empty exactly when the map they stand for is.
proof fn lemma_entries_map_empty<V, W>(s: Seq<(String, V)>, f: spec_fn(V) -> W)
    requires
        unique_keys_of(s),
    ensures
        (s.len() == 0) <==> (entries_map(s, f) == Map::<Seq<char>, W>::empty()),
{
    lemma_entries_map(s, f);
    if s.len() > 0 {
        assert(entry_keys(s)[0] == s[0].0@);
        assert(entries_map(s, f).contains_key(s[0].0@));
    }
}

/// The keys of entries are distinct.
pub open spec fn unique_keys_of<V>(s: Seq<(String, V)>) -> bool {
    super::map::unique_keys(entry_keys(s))
}

impl Object {
    /// The item named `name`, to change in place.
    pub fn get_item_mut(&mut self, name: &str) -> (r: Option<&mut InfoItem>)
        requires
            old(self).wf(),
        ensures
            match r {
                Some(x) => {
                    &&& or_empty(old(self)@.items).contains_key(name@)
                    &&& (*x)@ == or_empty(old(self)@.items)[name@]
                    &&& x.wf()
                    &&& final(self)@ == with_items(
                        old(self)@,
                        Some(or_empty(old(self)@.items).insert(name@, (*final(x))@)),
                    )
                    &&& (*final(x)).wf() ==> final(self).wf()
                },
                None => !or_empty(old(self)@.items).contains_key(name@) && *final(self) == *old(self),
            },
    {
        broadcast use {lemma_items_map_update, lemma_items_wf_update};
        match &mut self.items {
            None => None,
            Some(v) => {
                let ghost before = v@;
                proof {
                    lemma_sorted_unique(entry_keys(before));
                    lemma_entries_map(before, |i: InfoItem| item_view(i));
                }
                match find_entry(v, name) {
                    Ok(i) => {
                        proof {
                            assert(entry_keys(before)[i as int] == name@);
                        }
                        let r = &mut v[i].1;
                        Some(r)
                    },
                    Err(_) => None,
                }
            },
        }
    }

    /// The child object named `id`, to change in place.
    pub fn get_child_mut(&mut self, id: &str) -> (r: Option<&mut Object>)
        requires
            old(self).wf(),
        ensures
            match r {
                Some(x) => {
                    &&& or_empty(old(self)@.objects).contains_key(id@)
                    &&& (*x)@ == or_empty(old(self)@.objects)[id@]
                    &&& x.wf()
                    &&& final(self)@ == with_objects(
                        old(self)@,
                        Some(or_empty(old(self)@.objects).insert(id@, (*final(x))@)),
                    )
                    &&& (*final(x)).wf() ==> final(self).wf()
                },
                None => !or_empty(old(self)@.objects).contains_key(id@) && *final(self) == *old(self),
            },
    {
        match &mut self.objects {
            None => None,
            Some(v) => {
                let ghost before = v@;
                proof {
                    lemma_sorted_unique(entry_keys(before));
                    lemma_child_map(before);
                    lemma_children_wf(before);
                    lemma_entries_map(before, |o: Object| object_view(o));
                }
                match find_entry(v, id) {
                    Ok(i) => {
                        proof {
                            assert(entry_keys(before)[i as int] == id@);
                        }
                        let r = child_entry_mut(v, i);
                        Some(r)
                    },
                    Err(_) => None,
                }
            },
        }
    }

    /// Add (or replace) the item named `name`.
    pub fn add_item(&mut self, name: String, item: InfoItem)
        requires
            old(self).wf(),
            item.wf(),
        ensures
            final(self).wf(),
            final(self)@ == with_items(old(self)@, Some(or_empty(old(self)@.items).insert(name@, item@))),
    {
        let ghost f = |i: InfoItem| item_view(i);
        let mut v = match self.items.take() {
            Some(v) => v,
            None => Vec::new(),
        };
        let ghost before = v@;
        proof {
            lemma_sorted_unique(entry_keys(before));
            assert(old(self)@.items is None ==> entries_map(before, f) == Map::<Seq<char>, InfoItemView>::empty());
            assert(or_empty(old(self)@.items) == entries_map(before, f));
        }
        let ghost e = (name, item);
        let (p, prev) = put_entry(&mut v, name, item);
        proof {
            match prev {
                Some(_) => {
                    lemma_entries_map_update(before, f, p as int, e);
                    assert forall|i: int| 0 <= i < v@.len() implies (#[trigger] v@[i]).1.wf() by {
                        if i != p {
                            assert(v@[i] == before[i]);
                        }
                    }
                },
                None => {
                    lemma_entries_map_insert(before, f, p as int, e);
                    assert forall|i: int| 0 <= i < v@.len() implies (#[trigger] v@[i]).1.wf() by {
                        if i < p {
                            assert(v@[i] == before[i]);
                        } else if i > p {
                            assert(v@[i] == before[i - 1]);
                        }
                    }
                },
            }
        }
        self.items = Some(v);
        proof {
            assert(self@.items == Some(entries_map(v@, f)));
            assert(self@ == with_items(old(self)@, Some(or_empty(old(self)@.items).insert(e.0@, e.1@))));
        }
    }
    /// Add (or replace) a child object, under its own id.
    pub fn add_child(&mut self, obj: Object)
        requires
            old(self).wf(),
            obj.wf(),
        ensures
            final(self).wf(),
            final(self)@ == with_objects(old(self)@, Some(or_empty(old(self)@.objects).insert(obj@.id, obj@))),
    {
        let id = obj.id.clone();
        self.put_child(id, obj);
    }

    /// Put a child object under `key`, in place of any child of that name.
    pub(crate) fn put_child(&mut self, key: String, obj: Object)
        requires
            old(self).wf(),
            obj.wf(),
        ensures
            final(self).wf(),
            final(self)@ == with_objects(old(self)@, Some(or_empty(old(self)@.objects).insert(key@, obj@))),
    {
        let ghost f = |o: Object| object_view(o);
        let mut v = match self.objects.take() {
            Some(v) => v,
            None => Vec::new(),
        };
        let ghost before = v@;
        proof {
            lemma_sorted_unique(entry_keys(before));
            lemma_child_map(before);
            lemma_children_wf(before);
            assert(old(self)@.objects is None ==> entries_map(before, f) == Map::<Seq<char>, ObjectView>::empty());
            assert(or_empty(old(self)@.objects) == entries_map(before, f));
        }
        let ghost e = (key, obj);
        let (p, prev) = put_entry(&mut v, key, obj);
        proof {
            lemma_child_map(v@);
            match prev {
                Some(_) => {
                    lemma_entries_map_update(before, f, p as int, e);
                    assert forall|i: int| 0 <= i < v@.len() implies object_wf(#[trigger] v@[i].1) by {
                        if i != p {
                            assert(v@[i] == before[i]);
                        }
                    }
                },
                None => {
                    lemma_entries_map_insert(before, f, p as int, e);
                    assert forall|i: int| 0 <= i < v@.len() implies object_wf(#[trigger] v@[i].1) by {
                        if i < p {
                            assert(v@[i] == before[i]);
                        } else if i > p {
                            assert(v@[i] == before[i - 1]);
                        }
                    }
                },
            }
            lemma_children_wf(v@);
        }
        self.objects = Some(v);
        proof {
            assert(self@.objects == Some(child_map(v@)));
            assert(self@ == with_objects(old(self)@, Some(or_empty(old(self)@.objects).insert(e.0@, e.1@))));
        }
    }

    /// Remove the item named `name`, giving it back; where no item is left,
    /// the object has no item list at all.
    pub fn remove_item(&mut self, name: &str) -> (r: Option<InfoItem>)
        requires
            old(self).wf(),
        ensures
            final(self).wf(),
            final(self)@ == with_items(old(self)@, without_key(old(self)@.items, name@)),
            if or_empty(old(self)@.items).contains_key(name@) {
                r matches Some(x) && x@ == or_empty(old(self)@.items)[name@] && x.wf()
            } else {
                r is None
            },
    {
        let ghost f = |i: InfoItem| item_view(i);
        let mut v = match self.items.take() {
            Some(v) => v,
            None => {
                return None;
            },
        };
        let ghost before = v@;
        proof {
            lemma_sorted_unique(entry_keys(before));
            lemma_entries_map(before, f);
        }
        let r = match take_entry(&mut v, name) {
            Some((i, it)) => {
                proof {
                    lemma_entries_map_remove(before, f, i as int);
                    assert(entry_keys(before)[i as int] == name@);
                    assert forall|j: int| 0 <= j < v@.len() implies (#[trigger] v@[j]).1.wf() by {
                        if j < i {
                            assert(v@[j] == before[j]);
                        } else {
                            assert(v@[j] == before[j + 1]);
                        }
                    }
                }
                Some(it)
            },
            None => {
                proof {
                    assert(entries_map(before, f).remove(name@) =~= entries_map(before, f));
                }
                None
            },
        };
        proof {
            lemma_sorted_unique(entry_keys(v@));
            lemma_entries_map_empty(v@, f);
        }
        if v.len() == 0 {
            self.items = None;
        } else {
            self.items = Some(v);
        }
        r
    }

    /// Remove the child object `id`, giving it back; where no child is left,
    /// the object has no child list at all.
    pub fn remove_child(&mut self, id: &str) -> (r: Option<Object>)
        requires
            old(self).wf(),
        ensures
            final(self).wf(),
            final(self)@ == with_objects(old(self)@, without_key(old(self)@.objects, id@)),
            if or_empty(old(self)@.objects).contains_key(id@) {
                r matches Some(x) && x@ == or_empty(old(self)@.objects)[id@] && x.wf()
            } else {
                r is None
            },
    {
        let ghost f = |o: Object| object_view(o);
        let mut v = match self.objects.take() {
            Some(v) => v,
            None => {
                return None;
            },
        };
        let ghost before = v@;
        proof {
            lemma_sorted_unique(entry_keys(before));
            lemma_entries_map(before, f);
            lemma_child_map(before);
            lemma_children_wf(before);
        }
        let r = match take_entry(&mut v, id) {
            Some((i, o)) => {
                proof {
                    lemma_entries_map_remove(before, f, i as int);
                    assert(entry_keys(before)[i as int] == id@);
                    assert forall|j: int| 0 <= j < v@.len() implies object_wf(#[trigger] v@[j].1) by {
                        if j < i {
                            assert(v@[j] == before[j]);
                        } else {
                            assert(v@[j] == before[j + 1]);
                        }
                    }
                }
                Some(o)
            },
            None => {
                proof {
                    assert(entries_map(before, f).remove(id@) =~= entries_map(before, f));
                }
                None
            },
        };
        proof {
            lemma_sorted_unique(entry_keys(v@));
            lemma_entries_map_empty(v@, f);
            lemma_child_map(v@);
            lemma_children_wf(v@);
        }
        if v.len() == 0 {
            self.objects = None;
        } else {
            self.objects = Some(v);
        }
        r
    }

}

} // verus!
