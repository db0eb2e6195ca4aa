//! Device-level constants, and the compact binary format in which the newest
//! values of writable items are saved to NVS.

use vstd::prelude::*;
use vstd::utf8::{decode_utf8, encode_utf8, valid_utf8};
use crate::odf::{OmiValue, OmiValueView};
use crate::odf::map::{entries_map, entry_keys, key_lt};
use crate::odf::object::{children_wf, items_wf, lemma_children_wf, meta_get, omi_view, InfoItem, InfoItemView,
    Object, ObjectView};
use crate::odf::map::{lemma_sorted_names, sorted_names};
use crate::odf::tree::{delete_outcome, resolve_path, write_outcome, ObjectTree, ObjectTreeView, PathTarget,
    TargetView};
use crate::odf::object::or_empty;
use crate::mdns_discovery::Peer;
use crate::odf::value::{copy_omi_value, newest_of, Value, ValueView};
use crate::text::{ascii_chars, decimal_digits, decimal_string, push_str, str_eq, to_string, utf8_text};

verus! {

/// Path of the free-heap sensor item.
pub const PATH_FREE_HEAP: &'static str = "/System/FreeHeap";

/// Path of the free-flash sensor item.
pub const PATH_FREE_FLASH: &'static str = "/System/FreeFlash";

/// Path of the free O-DF storage sensor item.
pub const PATH_FREE_ODF_STORAGE: &'static str = "/System/FreeOdfStorage";

/// Path of the free-PSRAM sensor item.
pub const PATH_FREE_PSRAM: &'static str = "/System/FreePsram";

/// Path of the temperature sensor item.
pub const PATH_TEMPERATURE: &'static str = "/System/Temperature";

/// Path of the firmware version item.
pub const PATH_FIRMWARE_VERSION: &'static str = "/System/FirmwareVersion";

/// Path of the peer discovery object.
pub const PATH_DISCOVERY: &'static str = "/System/discovery";

/// The history length of a sensor item.
pub const SENSOR_CAPACITY: usize = 20;

/// A memory reading item of the given type, as a model: unit `B`, total 0
/// (the bits of the double 0.0 are 0).
pub open spec fn memory_item_view(type_uri: Seq<char>) -> InfoItemView {
    InfoItemView {
        type_uri: Some(type_uri),
        desc: None,
        meta: Some(map!["total"@ => OmiValueView::Number(0), "unit"@ => OmiValueView::Str("B"@)]),
        values: Seq::empty(),
        capacity: SENSOR_CAPACITY as nat,
    }
}

/// The firmware version item, as a model: one value, the version text.
pub open spec fn firmware_item_view(version: Seq<char>) -> InfoItemView {
    InfoItemView {
        type_uri: Some("omi:device:firmwareversion"@),
        desc: None,
        meta: None,
        values: seq![ValueView { v: OmiValueView::Str(version), t: None }],
        capacity: 1,
    }
}

/// The temperature item, as a model.
pub open spec fn temperature_item_view() -> InfoItemView {
    InfoItemView {
        type_uri: Some("omi:sensor:temperature"@),
        desc: None,
        meta: Some(map!["unit"@ => OmiValueView::Str("°C"@)]),
        values: Seq::empty(),
        capacity: SENSOR_CAPACITY as nat,
    }
}

/// The items of the `System` object: free heap and firmware version; free
/// flash and free O-DF storage with memory statistics, free PSRAM with PSRAM
/// too; temperature on a board with a sensor.
pub open spec fn system_items(mem_stats: bool, psram: bool, version: Seq<char>, temp: bool) -> Map<
    Seq<char>,
    InfoItemView,
> {
    let m0 = map![
        "FreeHeap"@ => memory_item_view("omi:memory:freeheap"@),
        "FirmwareVersion"@ => firmware_item_view(version),
    ];
    let m1 = if mem_stats {
        m0.insert("FreeFlash"@, memory_item_view("omi:memory:freeflash"@)).insert(
            "FreeOdfStorage"@,
            memory_item_view("omi:memory:freeodf"@),
        )
    } else {
        m0
    };
    let m2 = if mem_stats && psram {
        m1.insert("FreePsram"@, memory_item_view("omi:memory:freepsram"@))
    } else {
        m1
    };
    if temp {
        m2.insert("Temperature"@, temperature_item_view())
    } else {
        m2
    }
}

/// The `System` object, as a model.
pub open spec fn system_object_view(mem_stats: bool, psram: bool, version: Seq<char>, temp: bool) -> ObjectView {
    ObjectView {
        id: "System"@,
        type_uri: Some("omi:device:system"@),
        desc: None,
        items: Some(system_items(mem_stats, psram, version, temp)),
        objects: None,
    }
}

/// A memory reading item of the given type: unit `B`, total 0.
fn memory_item(type_uri: &str) -> (r: InfoItem)
    ensures
        r.wf(),
        r@ == memory_item_view(type_uri@),
{
    let mut item = InfoItem::new(SENSOR_CAPACITY);
    item.type_uri = Some(to_string(type_uri));
    let meta = vec![
        (to_string("total"), OmiValue::Number(0)),
        (to_string("unit"), OmiValue::Str(to_string("B"))),
    ];
    proof {
        reveal_strlit("total");
        reveal_strlit("unit");
        assert(key_lt("total"@, "unit"@));
        assert(entry_keys(meta@) =~= seq!["total"@, "unit"@]);
        reveal_with_fuel(entries_map, 3);
        assert(entries_map(meta@, |x: OmiValue| omi_view(x)) =~= map![
            "total"@ => OmiValueView::Number(0),
            "unit"@ => OmiValueView::Str("B"@),
        ]);
    }
    item.meta = Some(meta);
    item
}

/// Build the sensor tree of the device's own metrics: a `System` object with
/// read-only items for free heap and the firmware version (whose one value is
/// `firmware_version`); with `mem_stats`, free flash and free O-DF storage;
/// with `mem_stats` and `psram`, free PSRAM; and temperature on a board with
/// a sensor.
pub fn build_sensor_tree(mem_stats: bool, psram: bool, firmware_version: &str) -> (r: Vec<(String, Object)>)
    ensures
        r@.len() == 1,
        r@[0].0@ == "System"@,
        r@[0].1@ == system_object_view(mem_stats, psram, firmware_version@, false),
        r@[0].1.wf(),
{
    let mut sys = Object::new("System");
    sys.type_uri = Some(to_string("omi:device:system"));

    sys.add_item(to_string("FreeHeap"), memory_item("omi:memory:freeheap"));

    if mem_stats {
        sys.add_item(to_string("FreeFlash"), memory_item("omi:memory:freeflash"));
        sys.add_item(to_string("FreeOdfStorage"), memory_item("omi:memory:freeodf"));
    }
    if mem_stats && psram {
        sys.add_item(to_string("FreePsram"), memory_item("omi:memory:freepsram"));
    }

    let mut fw = InfoItem::new(1);
    fw.type_uri = Some(to_string("omi:device:firmwareversion"));
    fw.add_value(OmiValue::Str(to_string(firmware_version)), None);
    proof {
        assert(fw@.values =~= seq![ValueView { v: OmiValueView::Str(firmware_version@), t: None }]);
    }
    sys.add_item(to_string("FirmwareVersion"), fw);

    let temp = crate::board::has_temp_sensor();
    if temp {
        let mut t = InfoItem::new(SENSOR_CAPACITY);
        t.type_uri = Some(to_string("omi:sensor:temperature"));
        t.meta = Some(vec![(to_string("unit"), OmiValue::Str(to_string("°C")))]);
        sys.add_item(to_string("Temperature"), t);
    }
    proof {
        reveal_strlit("FreeHeap");
        reveal_strlit("FreeFlash");
        reveal_strlit("FreeOdfStorage");
        reveal_strlit("FreePsram");
        reveal_strlit("FirmwareVersion");
        let ks = seq!["FreeHeap"@, "FreeFlash"@, "FreeOdfStorage"@, "FreePsram"@, "FirmwareVersion"@];
        assert forall|i: int, j: int| 0 <= i < 5 && 0 <= j < 5 && i != j implies ks[i] != ks[j] by {
            if ks[i].len() == ks[j].len() {
                assert(ks[i][1] != ks[j][1] || ks[i][4] != ks[j][4]);
            }
        }
        let got = crate::odf::object::or_empty(sys@.items);
        let want = system_items(mem_stats, psram, firmware_version@, false);
        assert(got =~= want);
    }
    vec![(to_string("System"), sys)]
}

/// An item is writable when its metadata says `writable: true`.
pub open spec fn item_is_writable(i: InfoItemView) -> bool {
    meta_get(i.meta, "writable"@) == Some(OmiValueView::Bool(true))
}

/// `a`, a slash, and `b`: the path of `b` below `a`.
pub open spec fn sub_path(a: Seq<char>, b: Seq<char>) -> Seq<char> {
    a + "/"@ + b
}

/// What the items below the path `prefix` save, in order: each writable item
/// that holds a value gives its path and its newest value.
pub open spec fn item_saves(items: Seq<(String, InfoItem)>, prefix: Seq<char>) -> Seq<SavedItemView>
    decreases items.len(),
{
    if items.len() == 0 {
        Seq::empty()
    } else {
        let rest = item_saves(items.drop_last(), prefix);
        let i = items.last().1@;
        if item_is_writable(i) && i.values.len() > 0 {
            rest.push(
                SavedItemView { path: sub_path(prefix, items.last().0@), v: i.values.last().v, t: i.values.last().t },
            )
        } else {
            rest
        }
    }
}

/// What an object at the path `prefix` saves: its items, then its children
/// in order, depth first.
pub open spec fn object_saves(o: Object, prefix: Seq<char>) -> Seq<SavedItemView>
    decreases o,
{
    let own = match o.items {
        Some(v) => item_saves(v@, prefix),
        None => Seq::empty(),
    };
    let below = match o.objects {
        Some(v) => children_saves(v@, prefix),
        None => Seq::empty(),
    };
    own + below
}

/// What the children below the path `prefix` save, in order.
pub open spec fn children_saves(s: Seq<(String, Object)>, prefix: Seq<char>) -> Seq<SavedItemView>
    decreases s,
{
    if s.len() == 0 {
        Seq::empty()
    } else {
        children_saves(s.drop_last(), prefix) + object_saves(s.last().1, sub_path(prefix, s.last().0@))
    }
}

/// Save the writable items among `items`, below the path `prefix`.
fn collect_items(items: &Vec<(String, InfoItem)>, prefix: &str, result: &mut Vec<SavedItem>)
    requires
        items_wf(items@),
    ensures
        saved_views(final(result)@) == saved_views(old(result)@) + item_saves(items@, prefix@),
{
    let ghost r0 = saved_views(result@);
    let mut i: usize = 0;
    proof {
        assert(items@.take(0) =~= Seq::<(String, InfoItem)>::empty());
        assert(saved_views(result@) =~= r0 + item_saves(items@.take(0), prefix@));
    }
    while i < items.len()
        invariant
            i <= items@.len(),
            items_wf(items@),
            saved_views(result@) == r0 + item_saves(items@.take(i as int), prefix@),
        decreases items@.len() - i,
    {
        let name = &items[i].0;
        let item = &items[i].1;
        proof {
            assert(items@.take(i + 1).drop_last() =~= items@.take(i as int));
            assert(items@.take(i + 1).last() == items@[i as int]);
            assert(items@[i as int].1.wf());
        }
        if item.is_writable() {
            let newest = item.values.newest(1);
            if newest.len() > 0 {
                let path = concat3(prefix, "/", name.as_str());
                let saved = SavedItem { path, v: copy_omi_value(&newest[0].v), t: newest[0].t };
                let ghost before = result@;
                result.push(saved);
                proof {
                    let c = item@.values;
                    assert(newest_of(c, 1) =~= seq![c.last()]);
                    assert(crate::odf::value::value_views(newest@)[0] == newest@[0]@);
                    assert(saved_views(result@) =~= saved_views(before).push(saved@));
                    let prev = item_saves(items@.take(i as int), prefix@);
                    assert(item_saves(items@.take(i + 1), prefix@) == prev.push(saved@));
                    assert((r0 + prev).push(saved@) =~= r0 + prev.push(saved@));
                }
            } else {
                proof {
                    assert(newest_of(item@.values, 1).len() == 0);
                    assert(item@.values.len() == 0);
                    assert(item_saves(items@.take(i + 1), prefix@) == item_saves(items@.take(i as int), prefix@));
                }
            }
        } else {
            proof {
                assert(item_saves(items@.take(i + 1), prefix@) == item_saves(items@.take(i as int), prefix@));
            }
        }
        i = i + 1;
    }
    proof {
        assert(items@.take(i as int) =~= items@);
    }
}

/// `a`, `b` and `c` one after the other.
fn concat3(a: &str, b: &str, c: &str) -> (r: String)
    ensures
        r@ == a@ + b@ + c@,
{
    let mut s = to_string(a);
    push_str(&mut s, b);
    push_str(&mut s, c);
    s
}

/// Save the writable items of `obj` and of every object below it; `obj`
/// stands at the path `prefix`.
fn collect_from_object(obj: &Object, prefix: &str, result: &mut Vec<SavedItem>)
    requires
        obj.wf(),
    ensures
        saved_views(final(result)@) == saved_views(old(result)@) + object_saves(*obj, prefix@),
    decreases obj,
{
    let ghost r0 = saved_views(result@);
    if let Some(items) = &obj.items {
        collect_items(items, prefix, result);
    }
    let ghost r1 = saved_views(result@);
    if let Some(children) = &obj.objects {
        proof {
            lemma_children_wf(children@);
            assert(children@.take(0) =~= Seq::<(String, Object)>::empty());
        }
        let mut i: usize = 0;
        while i < children.len()
            invariant
                obj.objects == Some(*children),
                i <= children@.len(),
                children_wf(children@),
                forall|j: int| 0 <= j < children@.len() ==> object_wf_of(#[trigger] children@[j].1),
                saved_views(result@) == r1 + children_saves(children@.take(i as int), prefix@),
            decreases children@.len() - i,
        {
            let key = &children[i].0;
            let child = &children[i].1;
            proof {
                assert(children@.take(i + 1).drop_last() =~= children@.take(i as int));
                assert(object_wf_of(children@[i as int].1));
            }
            let path = concat3(prefix, "/", key.as_str());
            proof {
                assert(decreases_to!(*obj => obj.objects));
                assert(decreases_to!(obj.objects => obj.objects->Some_0));
                assert(decreases_to!(obj.objects->Some_0 => obj.objects->Some_0@));
                assert(decreases_to!(children@ => children@[i as int]));
                assert(decreases_to!(children@[i as int] => children@[i as int].1));
            }
            collect_from_object(child, path.as_str(), result);
            i = i + 1;
        }
        proof {
            assert(children@.take(i as int) =~= children@);
        }
    }
    proof {
        assert(saved_views(result@) =~= r0 + object_saves(*obj, prefix@));
    }
}

/// Well-formedness of an object, by name (for triggers).
pub open spec fn object_wf_of(o: Object) -> bool {
    o.wf()
}

/// The newest value of each writable item of the tree, with the item's
/// path, depth first in the order of the names.
pub fn collect_writable_items(tree: &ObjectTree) -> (r: Vec<SavedItem>)
    requires
        tree.wf(),
    ensures
        saved_views(r@) == children_saves(tree.roots(), Seq::empty()),
{
    let mut result: Vec<SavedItem> = Vec::new();
    let roots = tree.root_objects();
    proof {
        lemma_children_wf(roots@);
        assert(roots@.take(0) =~= Seq::<(String, Object)>::empty());
        assert(saved_views(result@) =~= Seq::<SavedItemView>::empty());
    }
    let mut i: usize = 0;
    while i < roots.len()
        invariant
            i <= roots@.len(),
            forall|j: int| 0 <= j < roots@.len() ==> object_wf_of(#[trigger] roots@[j].1),
            saved_views(result@) == children_saves(roots@.take(i as int), Seq::empty()),
        decreases roots@.len() - i,
    {
        let key = &roots[i].0;
        proof {
            assert(roots@.take(i + 1).drop_last() =~= roots@.take(i as int));
            assert(object_wf_of(roots@[i as int].1));
            reveal_strlit("");
        }
        let path = concat3("", "/", key.as_str());
        collect_from_object(&roots[i].1, path.as_str(), &mut result);
        i = i + 1;
    }
    proof {
        assert(roots@.take(i as int) =~= roots@);
    }
    result
}

/// The path of a peer's discovery item: `/System/discovery/<name>`.
pub open spec fn discovery_path(name: Seq<char>) -> Seq<char> {
    PATH_DISCOVERY@ + "/"@ + name
}

/// The value of a peer's discovery item: `<ip>:<port>`.
pub open spec fn peer_value(ip: Seq<char>, port: u16) -> OmiValueView {
    OmiValueView::Str(ip + ":"@ + ascii_chars(decimal_digits(port as nat)))
}

/// The names of the discovery items, in increasing order (none where the
/// discovery path leads to no object).
pub open spec fn discovery_names(objs: Map<Seq<char>, ObjectView>) -> Seq<Seq<char>> {
    match resolve_path(objs, PATH_DISCOVERY@) {
        Ok(TargetView::Object(o)) => sorted_names(or_empty(o.items)),
        _ => Seq::empty(),
    }
}

/// The hostname is one of the peers'.
pub open spec fn is_live(peers: Seq<Peer>, name: Seq<char>) -> bool {
    exists|i: int| 0 <= i < peers.len() && (#[trigger] peers[i]).hostname@ == name
}

/// The root objects after the discovery items `names` of no live peer are
/// deleted in turn, with how many deletions succeeded.
pub open spec fn remove_stale(objs: Map<Seq<char>, ObjectView>, names: Seq<Seq<char>>, peers: Seq<Peer>) -> (
    Map<Seq<char>, ObjectView>,
    nat,
)
    decreases names.len(),
{
    if names.len() == 0 {
        (objs, 0)
    } else {
        let (m, n) = remove_stale(objs, names.drop_last(), peers);
        let name = names.last();
        if is_live(peers, name) {
            (m, n)
        } else {
            let (m2, e) = delete_outcome(m, discovery_path(name));
            (m2, if e is None { n + 1 } else { n })
        }
    }
}

/// Writing the value of one peer (with a hostname) at `now`: the outcome.
pub open spec fn peer_write(m: Map<Seq<char>, ObjectView>, p: Peer, now: Option<u64>, cap: nat) -> Result<
    (Map<Seq<char>, ObjectView>, bool),
    crate::odf::tree::TreeErrorView,
> {
    write_outcome(m, discovery_path(p.hostname@), ValueView { v: peer_value(p.ip@, p.port), t: now }, cap)
}

/// The root objects after the value of each peer with a hostname is written
/// in turn (a write that fails changes nothing).
pub open spec fn write_peers(objs: Map<Seq<char>, ObjectView>, peers: Seq<Peer>, now: Option<u64>, cap: nat) -> Map<
    Seq<char>,
    ObjectView,
>
    decreases peers.len(),
{
    if peers.len() == 0 {
        objs
    } else {
        let m = write_peers(objs, peers.drop_last(), now, cap);
        let p = peers.last();
        if p.hostname@.len() == 0 {
            m
        } else {
            match peer_write(m, p, now, cap) {
                Ok((m2, _)) => m2,
                Err(_) => m,
            }
        }
    }
}

/// Whether writing the peers' values creates an item (or object) on the way.
pub open spec fn peers_create(objs: Map<Seq<char>, ObjectView>, peers: Seq<Peer>, now: Option<u64>, cap: nat) -> bool
    decreases peers.len(),
{
    if peers.len() == 0 {
        false
    } else {
        let p = peers.last();
        peers_create(objs, peers.drop_last(), now, cap) || (p.hostname@.len() > 0 && peer_write(
            write_peers(objs, peers.drop_last(), now, cap),
            p,
            now,
            cap,
        ) matches Ok((_, true)))
    }
}

/// Creating nothing for all peers is creating nothing for the first few.
proof fn lemma_peers_create_prefix(objs: Map<Seq<char>, ObjectView>, peers: Seq<Peer>, now: Option<u64>, cap: nat, k: int)
    requires
        0 <= k <= peers.len(),
        !peers_create(objs, peers, now, cap),
    ensures
        !peers_create(objs, peers.take(k), now, cap),
    decreases peers.len() - k,
{
    if k < peers.len() {
        lemma_peers_create_prefix(objs, peers, now, cap, k + 1);
        assert(peers.take(k + 1).drop_last() =~= peers.take(k));
    } else {
        assert(peers.take(k) =~= peers);
    }
}

/// Whether a peer with this hostname is among `peers`.
fn peer_is_live(peers: &[Peer], name: &str) -> (r: bool)
    ensures
        r == is_live(peers@, name@),
{
    let mut i: usize = 0;
    while i < peers.len()
        invariant
            i <= peers@.len(),
            forall|j: int| 0 <= j < i ==> (#[trigger] peers@[j]).hostname@ != name@,
        decreases peers@.len() - i,
    {
        if str_eq(peers[i].hostname.as_str(), name) {
            return true;
        }
        i = i + 1;
    }
    false
}

/// Update the discovery object with the latest peers: each discovery item
/// whose name is no peer's hostname is deleted (in the order of the names),
/// then the value `<ip>:<port>` of each peer with a hostname is written to
/// `/System/discovery/<hostname>` at time `now`. Gives how many stale items
/// were deleted.
pub fn update_discovery_tree(tree: &mut ObjectTree, peers: &[Peer], now: Option<u64>) -> (r: usize)
    requires
        old(tree).wf(),
        old(tree)@.default_capacity > 0 || !peers_create(
            remove_stale(old(tree)@.objects, discovery_names(old(tree)@.objects), peers@).0,
            peers@,
            now,
            old(tree)@.default_capacity,
        ),
    ensures
        final(tree).wf(),
        final(tree)@ == (ObjectTreeView {
            objects: write_peers(
                remove_stale(old(tree)@.objects, discovery_names(old(tree)@.objects), peers@).0,
                peers@,
                now,
                old(tree)@.default_capacity,
            ),
            ..old(tree)@
        }),
        r == remove_stale(old(tree)@.objects, discovery_names(old(tree)@.objects), peers@).1,
{
    let ghost objs0 = tree@.objects;
    let ghost cap = tree@.default_capacity;
    let mut names: Vec<String> = Vec::new();
    match tree.resolve(PATH_DISCOVERY) {
        Ok(PathTarget::Object(obj)) => {
            if let Some(items) = &obj.items {
                let mut i: usize = 0;
                while i < items.len()
                    invariant
                        i <= items@.len(),
                        names@.len() == i,
                        forall|j: int| 0 <= j < i ==> (#[trigger] names@[j])@ == crate::odf::map::entry_keys(items@)[j],
                    decreases items@.len() - i,
                {
                    names.push(items[i].0.clone());
                    i = i + 1;
                }
                proof {
                    lemma_sorted_names(items@, |x: InfoItem| crate::odf::object::item_view(x));
                }
            } else {
                proof {
                    assert(Seq::<Seq<char>>::empty().to_set() =~= Map::<Seq<char>, InfoItemView>::empty().dom());
                    crate::odf::map::lemma_sorted_same_set(
                        sorted_names(Map::<Seq<char>, InfoItemView>::empty()),
                        Seq::empty(),
                    );
                }
            }
        },
        _ => {},
    }
    let ghost nv = names@.map_values(|x: String| x@);
    proof {
        assert(nv =~= discovery_names(objs0));
        assert(nv.take(0) =~= Seq::<Seq<char>>::empty());
    }
    let mut removed: usize = 0;
    let mut k: usize = 0;
    while k < names.len()
        invariant
            tree.wf(),
            tree@.default_capacity == cap,
            k <= names@.len(),
            nv == names@.map_values(|x: String| x@),
            nv == discovery_names(objs0),
            tree@.objects == remove_stale(objs0, nv.take(k as int), peers@).0,
            removed == remove_stale(objs0, nv.take(k as int), peers@).1,
            removed <= k,
        decreases names@.len() - k,
    {
        let name = names[k].as_str();
        proof {
            assert(nv.take(k + 1).drop_last() =~= nv.take(k as int));
            assert(nv.take(k + 1).last() == name@);
        }
        if !peer_is_live(peers, name) {
            let path = concat3(PATH_DISCOVERY, "/", name);
            if tree.delete(path.as_str()).is_ok() {
                removed = removed + 1;
            }
        }
        k = k + 1;
    }
    proof {
        assert(nv.take(k as int) =~= nv);
    }
    let ghost m0 = tree@.objects;
    proof {
        assert(peers@.take(0) =~= Seq::<Peer>::empty());
    }
    let mut j: usize = 0;
    while j < peers.len()
        invariant
            tree.wf(),
            tree@.default_capacity == cap,
            j <= peers@.len(),
            cap > 0 || !peers_create(m0, peers@, now, cap),
            tree@.objects == write_peers(m0, peers@.take(j as int), now, cap),
        decreases peers@.len() - j,
    {
        let p = &peers[j];
        proof {
            assert(peers@.take(j + 1).drop_last() =~= peers@.take(j as int));
            assert(peers@.take(j + 1).last() == *p);
            if cap == 0 {
                lemma_peers_create_prefix(m0, peers@, now, cap, j + 1);
            }
        }
        proof {
            reveal_strlit("");
        }
        if !str_eq(p.hostname.as_str(), "") {
            let path = concat3(PATH_DISCOVERY, "/", p.hostname.as_str());
            let mut value = to_string(p.ip.as_str());
            push_str(&mut value, ":");
            let port = decimal_string(p.port as u64);
            push_str(&mut value, port.as_str());
            let v = OmiValue::Str(value);
            proof {
                assert(path@ == discovery_path(p.hostname@));
                assert(v@ == peer_value(p.ip@, p.port));
                assert((Value { v, t: now })@ == ValueView { v: peer_value(p.ip@, p.port), t: now });
                reveal_strlit("");
                assert(""@ =~= Seq::<char>::empty());
                if p.hostname@.len() == 0 {
                    assert(p.hostname@ =~= ""@);
                }
            }
            let _ = tree.write_value(path.as_str(), v, now);
        }
        j = j + 1;
    }
    proof {
        assert(peers@.take(j as int) =~= peers@);
    }
    removed
}

/// Largest blob that NVS stores for the writable items.
pub const MAX_NVS_BLOB: usize = 4000;

/// Errors from serializing items for NVS persistence.
#[derive(Debug, PartialEq, Eq, Structural)]
pub enum NvsSaveError {
    /// Serialized blob exceeds [`MAX_NVS_BLOB`]. Contains the actual size.
    TooLarge(usize),
    SerializeFailed,
}

/// A single writable item's latest value, for NVS persistence.
#[derive(Debug, Clone, PartialEq)]
pub struct SavedItem {
    pub path: String,
    pub v: OmiValue,
    /// The timestamp, as the bits of its IEEE 754 double.
    pub t: Option<u64>,
}

/// The mathematical model of a [`SavedItem`].
pub struct SavedItemView {
    pub path: Seq<char>,
    pub v: OmiValueView,
    pub t: Option<u64>,
}

impl View for SavedItem {
    type V = SavedItemView;

    open spec fn view(&self) -> SavedItemView {
        SavedItemView { path: self.path@, v: self.v@, t: self.t }
    }
}

/// The models of a sequence of saved items.
pub open spec fn saved_views(items: Seq<SavedItem>) -> Seq<SavedItemView> {
    items.map_values(|it: SavedItem| it@)
}

/// Binary format version tag.
pub const SAVED_ITEMS_VERSION: u8 = 1;

/// The two little-endian bytes of a 16-bit value.
pub open spec fn le16(v: u16) -> Seq<u8> {
    seq![v as u8, (v >> 8u16) as u8]
}

/// The eight little-endian bytes of a 64-bit value.
pub open spec fn le64(v: u64) -> Seq<u8> {
    seq![
        v as u8,
        (v >> 8u64) as u8,
        (v >> 16u64) as u8,
        (v >> 24u64) as u8,
        (v >> 32u64) as u8,
        (v >> 40u64) as u8,
        (v >> 48u64) as u8,
        (v >> 56u64) as u8,
    ]
}

/// A text as its UTF-8 length (16 bits, little-endian) followed by its UTF-8 bytes.
pub open spec fn text_field(s: Seq<char>) -> Seq<u8> {
    le16(encode_utf8(s).len() as u16) + encode_utf8(s)
}

/// The type tag and bytes of a value: 0 null, 1 false, 2 true, 3 number
/// (8 bytes), 4 string (text field).
pub open spec fn value_bytes(v: OmiValueView) -> Seq<u8> {
    match v {
        OmiValueView::Null => seq![0u8],
        OmiValueView::Bool(b) => if b {
            seq![2u8]
        } else {
            seq![1u8]
        },
        OmiValueView::Number(n) => seq![3u8] + le64(n),
        OmiValueView::Str(s) => seq![4u8] + text_field(s),
    }
}

/// The timestamp flag and bytes: 1 and 8 bytes, or 0.
pub open spec fn time_bytes(t: Option<u64>) -> Seq<u8> {
    match t {
        Some(b) => seq![1u8] + le64(b),
        None => seq![0u8],
    }
}

/// The bytes of one saved item.
pub open spec fn item_bytes(it: SavedItemView) -> Seq<u8> {
    text_field(it.path) + value_bytes(it.v) + time_bytes(it.t)
}

/// The bytes of the saved items, one after another.
pub open spec fn items_bytes(items: Seq<SavedItemView>) -> Seq<u8>
    decreases items.len(),
{
    if items.len() == 0 {
        Seq::empty()
    } else {
        items_bytes(items.drop_last()) + item_bytes(items.last())
    }
}

/// The blob that saves `items`: the version, the item count (16 bits,
/// little-endian) and the items.
pub open spec fn saved_blob(items: Seq<SavedItemView>) -> Seq<u8> {
    seq![SAVED_ITEMS_VERSION] + le16(items.len() as u16) + items_bytes(items)
}

/// The lengths of an item's texts fit in their 16-bit fields.
pub open spec fn item_fits(it: SavedItemView) -> bool {
    &&& encode_utf8(it.path).len() < 0x10000
    &&& (it.v matches OmiValueView::Str(s) ==> encode_utf8(s).len() < 0x10000)
}

/// The item count and every text length fit in their 16-bit fields.
pub open spec fn items_fit(items: Seq<SavedItemView>) -> bool {
    &&& items.len() < 0x10000
    &&& forall|i: int| 0 <= i < items.len() ==> #[trigger] item_fits(items[i])
}

fn push_bytes(buf: &mut Vec<u8>, b: &[u8])
    ensures
        final(buf)@ == old(buf)@ + b@,
{
    let mut i: usize = 0;
    while i < b.len()
        invariant
            i <= b@.len(),
            buf@ == old(buf)@ + b@.subrange(0, i as int),
        decreases b@.len() - i,
    {
        buf.push(b[i]);
        proof {
            assert(old(buf)@ + b@.subrange(0, i + 1) =~= old(buf)@ + b@.subrange(0, i as int) + seq![b@[i as int]]);
        }
        i = i + 1;
    }
    proof {
        assert(b@.subrange(0, b@.len() as int) =~= b@);
    }
}

fn push_le16(buf: &mut Vec<u8>, v: u16)
    ensures
        final(buf)@ == old(buf)@ + le16(v),
{
    buf.push(#[verifier::truncate] (v as u8));
    buf.push(#[verifier::truncate] ((v >> 8u16) as u8));
    proof {
        assert(final(buf)@ =~= old(buf)@ + le16(v)) by {
            assert(buf@ =~= old(buf)@ + le16(v));
        }
    }
}

fn push_le64(buf: &mut Vec<u8>, v: u64)
    ensures
        final(buf)@ == old(buf)@ + le64(v),
{
    buf.push(#[verifier::truncate] (v as u8));
    buf.push(#[verifier::truncate] ((v >> 8u64) as u8));
    buf.push(#[verifier::truncate] ((v >> 16u64) as u8));
    buf.push(#[verifier::truncate] ((v >> 24u64) as u8));
    buf.push(#[verifier::truncate] ((v >> 32u64) as u8));
    buf.push(#[verifier::truncate] ((v >> 40u64) as u8));
    buf.push(#[verifier::truncate] ((v >> 48u64) as u8));
    buf.push(#[verifier::truncate] ((v >> 56u64) as u8));
    proof {
        assert(buf@ =~= old(buf)@ + le64(v));
    }
}

/// Appends the text field of `s`; `false` (and nothing appended) when its
/// UTF-8 length does not fit in 16 bits.
fn push_text_field(buf: &mut Vec<u8>, s: &String) -> (ok: bool)
    ensures
        ok == (encode_utf8(s@).len() < 0x10000),
        ok ==> final(buf)@ == old(buf)@ + text_field(s@),
{
    let b = s.as_str().as_bytes();
    if b.len() >= 0x10000 {
        return false;
    }
    push_le16(buf, b.len() as u16);
    push_bytes(buf, b);
    proof {
        assert(buf@ =~= old(buf)@ + text_field(s@));
    }
    true
}

/// Serialize saved items to compact binary, enforcing the NVS blob size limit.
///
/// Wire format: the version byte 1, the item count (16 bits, little-endian),
/// then per item the path as a text field, the value's type tag and bytes,
/// and the timestamp flag and bytes (see [`saved_blob`]).
pub fn serialize_saved_items(items: &[SavedItem]) -> (r: Result<Vec<u8>, NvsSaveError>)
    ensures
        match r {
            Ok(b) => items_fit(saved_views(items@)) && b@ == saved_blob(saved_views(items@))
                && b@.len() <= MAX_NVS_BLOB,
            Err(NvsSaveError::TooLarge(n)) => items_fit(saved_views(items@)) && n == saved_blob(
                saved_views(items@),
            ).len() && n > MAX_NVS_BLOB,
            Err(NvsSaveError::SerializeFailed) => !items_fit(saved_views(items@)),
        },
{
    let ghost vs = saved_views(items@);
    let mut buf: Vec<u8> = Vec::new();
    buf.push(SAVED_ITEMS_VERSION);
    if items.len() >= 0x10000 {
        return Err(NvsSaveError::SerializeFailed);
    }
    push_le16(&mut buf, items.len() as u16);
    let mut i: usize = 0;
    proof {
        assert(vs.subrange(0, 0) =~= Seq::<SavedItemView>::empty());
        assert(buf@ =~= seq![SAVED_ITEMS_VERSION] + le16(items@.len() as u16) + items_bytes(
            vs.subrange(0, 0),
        ));
    }
    while i < items.len()
        invariant
            vs == saved_views(items@),
            vs.len() == items@.len(),
            items@.len() < 0x10000,
            i <= items@.len(),
            buf@ == seq![SAVED_ITEMS_VERSION] + le16(items@.len() as u16) + items_bytes(
                vs.subrange(0, i as int),
            ),
            forall|j: int| 0 <= j < i ==> #[trigger] item_fits(vs[j]),
        decreases items@.len() - i,
    {
        let item = &items[i];
        let ghost before = buf@;
        if !push_text_field(&mut buf, &item.path) {
            assert(!item_fits(vs[i as int]));
            return Err(NvsSaveError::SerializeFailed);
        }
        match &item.v {
            OmiValue::Null => buf.push(0),
            OmiValue::Bool(b) => {
                if *b {
                    buf.push(2);
                } else {
                    buf.push(1);
                }
            },
            OmiValue::Number(n) => {
                buf.push(3);
                push_le64(&mut buf, *n);
            },
            OmiValue::Str(s) => {
                buf.push(4);
                if !push_text_field(&mut buf, s) {
                    assert(!item_fits(vs[i as int]));
                    return Err(NvsSaveError::SerializeFailed);
                }
            },
        }
        match item.t {
            Some(t) => {
                buf.push(1);
                push_le64(&mut buf, t);
            },
            None => buf.push(0),
        }
        proof {
            let sub = vs.subrange(0, i + 1);
            assert(sub.drop_last() =~= vs.subrange(0, i as int));
            assert(sub.last() == vs[i as int]);
            assert(buf@ =~= before + item_bytes(vs[i as int]));
            assert(item_fits(vs[i as int]));
        }
        i = i + 1;
    }
    proof {
        assert(vs.subrange(0, i as int) =~= vs);
    }
    if buf.len() > MAX_NVS_BLOB {
        return Err(NvsSaveError::TooLarge(buf.len()));
    }
    Ok(buf)
}

/// Why a blob does not decode to saved items.
#[derive(Debug, PartialEq, Eq, Structural)]
pub enum SavedDecodeError {
    /// The data ends inside a field.
    Truncated,
    /// The version byte is not [`SAVED_ITEMS_VERSION`].
    Version(u8),
    /// A value's type tag is none of 0 to 4.
    Tag(u8),
    /// A text field is not UTF-8.
    Utf8,
}

/// The little-endian 16-bit value at byte `p`.
pub open spec fn u16_at(d: Seq<u8>, p: int) -> u16 {
    (d[p] as u16) | ((d[p + 1] as u16) << 8u16)
}

/// The little-endian 64-bit value at byte `p`.
pub open spec fn u64_at(d: Seq<u8>, p: int) -> u64 {
    (d[p] as u64) | ((d[p + 1] as u64) << 8u64) | ((d[p + 2] as u64) << 16u64) | ((d[p + 3] as u64)
        << 24u64) | ((d[p + 4] as u64) << 32u64) | ((d[p + 5] as u64) << 40u64) | ((d[p + 6] as u64)
        << 48u64) | ((d[p + 7] as u64) << 56u64)
}

/// The text field at byte `p`, and the position after it.
pub open spec fn text_at(d: Seq<u8>, p: int) -> Result<(Seq<char>, int), SavedDecodeError> {
    if p + 2 > d.len() {
        Err(SavedDecodeError::Truncated)
    } else {
        let n = u16_at(d, p) as int;
        if p + 2 + n > d.len() {
            Err(SavedDecodeError::Truncated)
        } else if !valid_utf8(d.subrange(p + 2, p + 2 + n)) {
            Err(SavedDecodeError::Utf8)
        } else {
            Ok((decode_utf8(d.subrange(p + 2, p + 2 + n)), p + 2 + n))
        }
    }
}

/// The value at byte `p`, and the position after it.
pub open spec fn value_at(d: Seq<u8>, p: int) -> Result<(OmiValueView, int), SavedDecodeError> {
    if p + 1 > d.len() {
        Err(SavedDecodeError::Truncated)
    } else if d[p] == 0 {
        Ok((OmiValueView::Null, p + 1))
    } else if d[p] == 1 {
        Ok((OmiValueView::Bool(false), p + 1))
    } else if d[p] == 2 {
        Ok((OmiValueView::Bool(true), p + 1))
    } else if d[p] == 3 {
        if p + 9 > d.len() {
            Err(SavedDecodeError::Truncated)
        } else {
            Ok((OmiValueView::Number(u64_at(d, p + 1)), p + 9))
        }
    } else if d[p] == 4 {
        match text_at(d, p + 1) {
            Ok((s, q)) => Ok((OmiValueView::Str(s), q)),
            Err(e) => Err(e),
        }
    } else {
        Err(SavedDecodeError::Tag(d[p]))
    }
}

/// The timestamp at byte `p` (flag 1 and 8 bytes; any other flag is none),
/// and the position after it.
pub open spec fn time_at(d: Seq<u8>, p: int) -> Result<(Option<u64>, int), SavedDecodeError> {
    if p + 1 > d.len() {
        Err(SavedDecodeError::Truncated)
    } else if d[p] == 1 {
        if p + 9 > d.len() {
            Err(SavedDecodeError::Truncated)
        } else {
            Ok((Some(u64_at(d, p + 1)), p + 9))
        }
    } else {
        Ok((None, p + 1))
    }
}

/// The saved item at byte `p`, and the position after it.
pub open spec fn item_at(d: Seq<u8>, p: int) -> Result<(SavedItemView, int), SavedDecodeError> {
    match text_at(d, p) {
        Err(e) => Err(e),
        Ok((path, q)) => match value_at(d, q) {
            Err(e) => Err(e),
            Ok((v, q2)) => match time_at(d, q2) {
                Err(e) => Err(e),
                Ok((t, q3)) => Ok((SavedItemView { path, v, t }, q3)),
            },
        },
    }
}

/// `count` saved items one after another from byte `p`, and the position after them.
pub open spec fn items_at(d: Seq<u8>, p: int, count: nat) -> Result<
    (Seq<SavedItemView>, int),
    SavedDecodeError,
>
    decreases count,
{
    if count == 0 {
        Ok((Seq::empty(), p))
    } else {
        match items_at(d, p, (count - 1) as nat) {
            Err(e) => Err(e),
            Ok((items, q)) => match item_at(d, q) {
                Err(e) => Err(e),
                Ok((it, q2)) => Ok((items.push(it), q2)),
            },
        }
    }
}

/// The saved items a blob decodes to: the version byte, the count, then that
/// many items. Bytes after the last item are ignored.
pub open spec fn decode_saved(d: Seq<u8>) -> Result<Seq<SavedItemView>, SavedDecodeError> {
    if d.len() < 1 {
        Err(SavedDecodeError::Truncated)
    } else if d[0] != SAVED_ITEMS_VERSION {
        Err(SavedDecodeError::Version(d[0]))
    } else if d.len() < 3 {
        Err(SavedDecodeError::Truncated)
    } else {
        match items_at(d, 3, u16_at(d, 1) as nat) {
            Ok((items, _)) => Ok(items),
            Err(e) => Err(e),
        }
    }
}

/// Message for data that ends inside a field.
pub const END_OF_DATA: &'static str = "unexpected end of data";

/// Message prefix for an unknown version byte.
pub const VERSION_PREFIX: &'static str = "unsupported version: ";

/// Message prefix for an unknown type tag.
pub const TAG_PREFIX: &'static str = "unknown type tag: ";

/// `m` is the message for the decode error `e` (for UTF-8 errors, the
/// description that comes with them).
pub open spec fn decode_message(e: SavedDecodeError, m: Seq<char>) -> bool {
    match e {
        SavedDecodeError::Truncated => m == END_OF_DATA@,
        SavedDecodeError::Version(v) => m == VERSION_PREFIX@ + ascii_chars(decimal_digits(v as nat)),
        SavedDecodeError::Tag(t) => m == TAG_PREFIX@ + ascii_chars(decimal_digits(t as nat)),
        SavedDecodeError::Utf8 => true,
    }
}

fn message_with_number(prefix: &str, n: u8) -> (m: String)
    ensures
        m@ == prefix@ + ascii_chars(decimal_digits(n as nat)),
{
    let mut m = to_string(prefix);
    let d = decimal_string(n as u64);
    push_str(&mut m, d.as_str());
    m
}

fn read_u16(data: &[u8], pos: usize) -> (r: u16)
    requires
        pos + 2 <= data@.len(),
    ensures
        r == u16_at(data@, pos as int),
{
    (data[pos] as u16) | ((data[pos + 1] as u16) << 8u16)
}

fn read_u64(data: &[u8], pos: usize) -> (r: u64)
    requires
        pos + 8 <= data@.len(),
    ensures
        r == u64_at(data@, pos as int),
{
    (data[pos] as u64) | ((data[pos + 1] as u64) << 8u64) | ((data[pos + 2] as u64) << 16u64) | ((
    data[pos + 3] as u64) << 24u64) | ((data[pos + 4] as u64) << 32u64) | ((data[pos + 5] as u64)
        << 40u64) | ((data[pos + 6] as u64) << 48u64) | ((data[pos + 7] as u64) << 56u64)
}

fn read_text(data: &[u8], pos: usize) -> (r: Result<(String, usize), String>)
    requires
        pos <= data@.len(),
    ensures
        match r {
            Ok((s, q)) => text_at(data@, pos as int) matches Ok((t, q2)) && t == s@ && q2 == q
                && q <= data@.len(),
            Err(m) => text_at(data@, pos as int) matches Err(e) && decode_message(e, m@),
        },
{
    if data.len() - pos < 2 {
        return Err(to_string(END_OF_DATA));
    }
    let n = read_u16(data, pos) as usize;
    if data.len() - pos - 2 < n {
        return Err(to_string(END_OF_DATA));
    }
    match utf8_text(&data[pos + 2..pos + 2 + n]) {
        Ok(s) => Ok((s, pos + 2 + n)),
        Err(m) => Err(m),
    }
}

fn read_value(data: &[u8], pos: usize) -> (r: Result<(OmiValue, usize), String>)
    requires
        pos <= data@.len(),
    ensures
        match r {
            Ok((v, q)) => value_at(data@, pos as int) matches Ok((w, q2)) && w == v@ && q2 == q
                && q <= data@.len(),
            Err(m) => value_at(data@, pos as int) matches Err(e) && decode_message(e, m@),
        },
{
    if pos >= data.len() {
        return Err(to_string(END_OF_DATA));
    }
    let tag = data[pos];
    if tag == 0 {
        Ok((OmiValue::Null, pos + 1))
    } else if tag == 1 {
        Ok((OmiValue::Bool(false), pos + 1))
    } else if tag == 2 {
        Ok((OmiValue::Bool(true), pos + 1))
    } else if tag == 3 {
        if data.len() - pos < 9 {
            return Err(to_string(END_OF_DATA));
        }
        Ok((OmiValue::Number(read_u64(data, pos + 1)), pos + 9))
    } else if tag == 4 {
        match read_text(data, pos + 1) {
            Ok((s, q)) => Ok((OmiValue::Str(s), q)),
            Err(m) => Err(m),
        }
    } else {
        Err(message_with_number(TAG_PREFIX, tag))
    }
}

fn read_time(data: &[u8], pos: usize) -> (r: Result<(Option<u64>, usize), String>)
    requires
        pos <= data@.len(),
    ensures
        match r {
            Ok((t, q)) => time_at(data@, pos as int) matches Ok((w, q2)) && w == t && q2 == q
                && q <= data@.len(),
            Err(m) => time_at(data@, pos as int) matches Err(e) && decode_message(e, m@),
        },
{
    if pos >= data.len() {
        return Err(to_string(END_OF_DATA));
    }
    if data[pos] == 1 {
        if data.len() - pos < 9 {
            return Err(to_string(END_OF_DATA));
        }
        Ok((Some(read_u64(data, pos + 1)), pos + 9))
    } else {
        Ok((None, pos + 1))
    }
}

fn read_item(data: &[u8], pos: usize) -> (r: Result<(SavedItem, usize), String>)
    requires
        pos <= data@.len(),
    ensures
        match r {
            Ok((it, q)) => item_at(data@, pos as int) matches Ok((w, q2)) && w == it@ && q2 == q
                && q <= data@.len(),
            Err(m) => item_at(data@, pos as int) matches Err(e) && decode_message(e, m@),
        },
{
    let (path, q) = match read_text(data, pos) {
        Ok(x) => x,
        Err(m) => return Err(m),
    };
    let (v, q2) = match read_value(data, q) {
        Ok(x) => x,
        Err(m) => return Err(m),
    };
    let (t, q3) = match read_time(data, q2) {
        Ok(x) => x,
        Err(m) => return Err(m),
    };
    Ok((SavedItem { path, v, t }, q3))
}

proof fn lemma_items_error_persists(d: Seq<u8>, p: int, i: nat, j: nat)
    requires
        i <= j,
        items_at(d, p, i) is Err,
    ensures
        items_at(d, p, j) == items_at(d, p, i),
    decreases j - i,
{
    if i < j {
        lemma_items_error_persists(d, p, i, (j - 1) as nat);
    }
}

/// Deserialize saved items from a compact binary byte slice.
pub fn deserialize_saved_items(data: &[u8]) -> (r: Result<Vec<SavedItem>, String>)
    ensures
        match r {
            Ok(items) => decode_saved(data@) matches Ok(vs) && vs == saved_views(items@),
            Err(m) => decode_saved(data@) matches Err(e) && decode_message(e, m@),
        },
{
    if data.len() < 1 {
        return Err(to_string(END_OF_DATA));
    }
    let version = data[0];
    if version != SAVED_ITEMS_VERSION {
        return Err(message_with_number(VERSION_PREFIX, version));
    }
    if data.len() < 3 {
        return Err(to_string(END_OF_DATA));
    }
    let count = read_u16(data, 1) as usize;
    let mut items: Vec<SavedItem> = Vec::new();
    let mut pos: usize = 3;
    let mut i: usize = 0;
    proof {
        assert(saved_views(items@) =~= Seq::<SavedItemView>::empty());
    }
    while i < count
        invariant
            data@.len() >= 3,
            data@[0] == SAVED_ITEMS_VERSION,
            count == u16_at(data@, 1),
            i <= count,
            pos <= data@.len(),
            items_at(data@, 3, i as nat) matches Ok((vs, q)) && vs == saved_views(items@) && q
                == pos,
        decreases count - i,
    {
        match read_item(data, pos) {
            Ok((it, q)) => {
                proof {
                    assert(saved_views(items@.push(it)) =~= saved_views(items@).push(it@));
                }
                items.push(it);
                pos = q;
            },
            Err(m) => {
                proof {
                    assert(item_at(data@, pos as int) is Err);
                    assert(items_at(data@, 3, (i + 1) as nat) matches Err(e) && decode_message(e, m@));
                    lemma_items_error_persists(data@, 3, (i + 1) as nat, count as nat);
                }
                return Err(m);
            },
        }
        i = i + 1;
    }
    Ok(items)
}

proof fn lemma_le16_roundtrip(v: u16)
    ensures
        ((v as u8) as u16) | ((((v >> 8u16) as u8) as u16) << 8u16) == v,
{
    assert(((v as u8) as u16) | ((((v >> 8u16) as u8) as u16) << 8u16) == v) by (bit_vector);
}

proof fn lemma_le64_roundtrip(v: u64)
    ensures
        u64_at(le64(v), 0) == v,
{
    let b = le64(v);
    assert(u64_at(b, 0) == ((v as u8) as u64) | ((((v >> 8u64) as u8) as u64) << 8u64) | ((((v
        >> 16u64) as u8) as u64) << 16u64) | ((((v >> 24u64) as u8) as u64) << 24u64) | ((((v
        >> 32u64) as u8) as u64) << 32u64) | ((((v >> 40u64) as u8) as u64) << 40u64) | ((((v
        >> 48u64) as u8) as u64) << 48u64) | ((((v >> 56u64) as u8) as u64) << 56u64));
    assert(((v as u8) as u64) | ((((v >> 8u64) as u8) as u64) << 8u64) | ((((v >> 16u64) as u8)
        as u64) << 16u64) | ((((v >> 24u64) as u8) as u64) << 24u64) | ((((v >> 32u64) as u8)
        as u64) << 32u64) | ((((v >> 40u64) as u8) as u64) << 40u64) | ((((v >> 48u64) as u8)
        as u64) << 48u64) | ((((v >> 56u64) as u8) as u64) << 56u64) == v) by (bit_vector);
}

proof fn lemma_window_split(d: Seq<u8>, p: int, a: Seq<u8>, b: Seq<u8>)
    requires
        0 <= p,
        p + a.len() + b.len() <= d.len(),
        d.subrange(p, p + a.len() + b.len()) == a + b,
    ensures
        d.subrange(p, p + a.len()) == a,
        d.subrange(p + a.len(), p + a.len() + b.len()) == b,
{
    assert forall|i: int| 0 <= i < a.len() implies d.subrange(p, p + a.len())[i] == a[i] by {
        assert(d.subrange(p, p + a.len() + b.len())[i] == (a + b)[i]);
    }
    assert forall|i: int| 0 <= i < b.len() implies d.subrange(p + a.len(), p + a.len() + b.len())[i]
        == b[i] by {
        let j = a.len() + i;
        assert(d.subrange(p, p + a.len() + b.len())[j] == (a + b)[j]);
        assert(d.subrange(p, p + a.len() + b.len())[j] == d[p + j]);
        assert(d.subrange(p + a.len(), p + a.len() + b.len())[i] == d[p + j]);
        assert((a + b)[j] == b[i]);
    }
    assert(d.subrange(p, p + a.len()) =~= a);
    assert(d.subrange(p + a.len(), p + a.len() + b.len()) =~= b);
}

proof fn lemma_u64_window(d: Seq<u8>, p: int, v: u64)
    requires
        0 <= p,
        p + 8 <= d.len(),
        d.subrange(p, p + 8) == le64(v),
    ensures
        u64_at(d, p) == v,
{
    lemma_le64_roundtrip(v);
    let w = d.subrange(p, p + 8);
    assert(d[p] == w[0] && d[p + 1] == w[1] && d[p + 2] == w[2] && d[p + 3] == w[3]);
    assert(d[p + 4] == w[4] && d[p + 5] == w[5] && d[p + 6] == w[6] && d[p + 7] == w[7]);
}

proof fn lemma_text_at(d: Seq<u8>, p: int, s: Seq<char>)
    requires
        0 <= p,
        encode_utf8(s).len() < 0x10000,
        p + text_field(s).len() <= d.len(),
        d.subrange(p, p + text_field(s).len()) == text_field(s),
    ensures
        text_at(d, p) == Ok::<(Seq<char>, int), SavedDecodeError>((s, p + text_field(s).len())),
{
    let b = encode_utf8(s);
    let n = b.len();
    let h = le16(n as u16);
    lemma_window_split(d, p, h, b);
    lemma_le16_roundtrip(n as u16);
    assert(d[p] == d.subrange(p, p + 2)[0]);
    assert(d[p + 1] == d.subrange(p, p + 2)[1]);
    assert(u16_at(d, p) == n as u16);
    vstd::utf8::encode_utf8_valid_utf8(s);
    vstd::utf8::encode_utf8_decode_utf8(s);
}

proof fn lemma_value_at(d: Seq<u8>, p: int, v: OmiValueView)
    requires
        0 <= p,
        v matches OmiValueView::Str(s) ==> encode_utf8(s).len() < 0x10000,
        p + value_bytes(v).len() <= d.len(),
        d.subrange(p, p + value_bytes(v).len()) == value_bytes(v),
    ensures
        value_at(d, p) == Ok::<(OmiValueView, int), SavedDecodeError>((v, p + value_bytes(v).len())),
{
    let w = value_bytes(v);
    assert(d[p] == w[0]) by {
        assert(d.subrange(p, p + w.len())[0] == w[0]);
    }
    match v {
        OmiValueView::Number(n) => {
            lemma_window_split(d, p, seq![3u8], le64(n));
            lemma_u64_window(d, p + 1, n);
        },
        OmiValueView::Str(s) => {
            lemma_window_split(d, p, seq![4u8], text_field(s));
            lemma_text_at(d, p + 1, s);
        },
        _ => {},
    }
}

proof fn lemma_time_at(d: Seq<u8>, p: int, t: Option<u64>)
    requires
        0 <= p,
        p + time_bytes(t).len() <= d.len(),
        d.subrange(p, p + time_bytes(t).len()) == time_bytes(t),
    ensures
        time_at(d, p) == Ok::<(Option<u64>, int), SavedDecodeError>((t, p + time_bytes(t).len())),
{
    let w = time_bytes(t);
    assert(d[p] == w[0]) by {
        assert(d.subrange(p, p + w.len())[0] == w[0]);
    }
    match t {
        Some(b) => {
            lemma_window_split(d, p, seq![1u8], le64(b));
            lemma_u64_window(d, p + 1, b);
        },
        None => {},
    }
}

proof fn lemma_item_at(d: Seq<u8>, p: int, it: SavedItemView)
    requires
        0 <= p,
        item_fits(it),
        p + item_bytes(it).len() <= d.len(),
        d.subrange(p, p + item_bytes(it).len()) == item_bytes(it),
    ensures
        item_at(d, p) == Ok::<(SavedItemView, int), SavedDecodeError>((it, p + item_bytes(it).len())),
{
    let a = text_field(it.path);
    let b = value_bytes(it.v);
    let c = time_bytes(it.t);
    lemma_window_split(d, p, a + b, c);
    lemma_window_split(d, p, a, b);
    lemma_text_at(d, p, it.path);
    lemma_value_at(d, p + a.len(), it.v);
    lemma_time_at(d, p + a.len() + b.len(), it.t);
}

proof fn lemma_items_bytes_prefix(items: Seq<SavedItemView>, k: int)
    requires
        0 <= k <= items.len(),
    ensures
        items_bytes(items.subrange(0, k)).len() <= items_bytes(items).len(),
        items_bytes(items).subrange(0, items_bytes(items.subrange(0, k)).len() as int) == items_bytes(
            items.subrange(0, k),
        ),
    decreases items.len(),
{
    if k == items.len() {
        assert(items.subrange(0, k) =~= items);
        assert(items_bytes(items).subrange(0, items_bytes(items).len() as int) =~= items_bytes(items));
    } else {
        let init = items.drop_last();
        assert(init.subrange(0, k) =~= items.subrange(0, k));
        lemma_items_bytes_prefix(init, k);
        let pre = items_bytes(items.subrange(0, k));
        assert(items_bytes(items) == items_bytes(init) + item_bytes(items.last()));
        assert(items_bytes(items).subrange(0, pre.len() as int) =~= items_bytes(init).subrange(
            0,
            pre.len() as int,
        ));
    }
}

proof fn lemma_items_at(d: Seq<u8>, items: Seq<SavedItemView>, k: nat)
    requires
        items_fit(items),
        k <= items.len(),
        3 + items_bytes(items).len() <= d.len(),
        d.subrange(3, 3 + items_bytes(items).len() as int) == items_bytes(items),
    ensures
        items_at(d, 3, k) == Ok::<(Seq<SavedItemView>, int), SavedDecodeError>(
            (items.subrange(0, k as int), 3 + items_bytes(items.subrange(0, k as int)).len() as int),
        ),
    decreases k,
{
    if k == 0 {
        assert(items.subrange(0, 0) =~= Seq::<SavedItemView>::empty());
    } else {
        let k1 = (k - 1) as nat;
        lemma_items_at(d, items, k1);
        let sub = items.subrange(0, k as int);
        let pre = items.subrange(0, k1 as int);
        assert(sub.drop_last() =~= pre);
        assert(sub.last() == items[k1 as int]);
        assert(items_bytes(sub) == items_bytes(pre) + item_bytes(items[k1 as int]));
        lemma_items_bytes_prefix(items, k as int);
        let all = items_bytes(items);
        let q: int = 3 + items_bytes(pre).len() as int;
        let it = items[k1 as int];
        assert(item_fits(it));
        assert(d.subrange(q, q + item_bytes(it).len()) =~= item_bytes(it)) by {
            assert forall|i: int| 0 <= i < item_bytes(it).len() implies d.subrange(
                q,
                q + item_bytes(it).len(),
            )[i] == item_bytes(it)[i] by {
                let j = items_bytes(pre).len() + i;
                assert(all.subrange(0, items_bytes(sub).len() as int)[j] == items_bytes(sub)[j]);
                assert(d.subrange(3, 3 + all.len() as int)[j] == all[j]);
            }
        }
        lemma_item_at(d, q, it);
        assert(pre.push(it) =~= sub);
    }
}

/// Saving and loading: a blob made from items whose texts fit their length
/// fields decodes to exactly those items.
pub proof fn lemma_saved_items_roundtrip(items: Seq<SavedItemView>)
    requires
        items_fit(items),
    ensures
        decode_saved(saved_blob(items)) == Ok::<Seq<SavedItemView>, SavedDecodeError>(items),
{
    let d = saved_blob(items);
    let n = items.len() as u16;
    lemma_le16_roundtrip(n);
    assert(d[1] == n as u8 && d[2] == (n >> 8u16) as u8);
    assert(u16_at(d, 1) == n);
    assert(d.subrange(3, 3 + items_bytes(items).len() as int) =~= items_bytes(items));
    lemma_items_at(d, items, items.len());
    assert(items.subrange(0, items.len() as int) =~= items);
}

} // verus!