//! O-DF paths and the errors of path-based tree operations.

use vstd::prelude::*;
use crate::scan::{self, split_chars, trim};
use crate::text::{self, chars_of, push_str};
use super::map::{entries_map, entry_keys, find_entry, lemma_entries_map, lemma_entries_map_insert,
    lemma_entries_map_remove, lemma_entries_map_update, lemma_sorted_unique, put_entry, sorted_keys,
    take_entry};
use super::object::{child_entry_mut, child_map, children_wf, item_pushed, lemma_child_map, lemma_children_wf,
    lemma_without_then_insert, new_item_view, new_object_view, object_view, object_wf, or_empty,
    with_items, with_objects, without_key, InfoItem, InfoItemView, Object, ObjectView};
use super::value::{Value, ValueView};
use super::OmiValue;

verus! {

/// Error of a path-based tree operation.
#[derive(Debug, PartialEq, Eq)]
pub enum TreeError {
    NotFound(String),
    Forbidden(String),
    InvalidPath(String),
    SerializationError(String),
}

/// The model of a [`TreeError`]: its kind and message.
pub enum TreeErrorView {
    NotFound(Seq<char>),
    Forbidden(Seq<char>),
    InvalidPath(Seq<char>),
    SerializationError(Seq<char>),
}

impl View for TreeError {
    type V = TreeErrorView;

    open spec fn view(&self) -> TreeErrorView {
        match self {
            TreeError::NotFound(m) => TreeErrorView::NotFound(m@),
            TreeError::Forbidden(m) => TreeErrorView::Forbidden(m@),
            TreeError::InvalidPath(m) => TreeErrorView::InvalidPath(m@),
            TreeError::SerializationError(m) => TreeErrorView::SerializationError(m@),
        }
    }
}

/// How an error reads.
pub open spec fn tree_error_text(e: TreeError) -> Seq<char> {
    match e {
        TreeError::NotFound(m) => "Not found: "@ + m@,
        TreeError::Forbidden(m) => "Forbidden: "@ + m@,
        TreeError::InvalidPath(m) => "Invalid path: "@ + m@,
        TreeError::SerializationError(m) => "Serialization error: "@ + m@,
    }
}

impl TreeError {
    /// The error as text: its kind, a colon, and the message.
    pub fn to_string(&self) -> (r: String)
        ensures
            r@ == tree_error_text(*self),
    {
        let mut s = String::new();
        match self {
            TreeError::NotFound(m) => {
                push_str(&mut s, "Not found: ");
                push_str(&mut s, m.as_str());
            },
            TreeError::Forbidden(m) => {
                push_str(&mut s, "Forbidden: ");
                push_str(&mut s, m.as_str());
            },
            TreeError::InvalidPath(m) => {
                push_str(&mut s, "Invalid path: ");
                push_str(&mut s, m.as_str());
            },
            TreeError::SerializationError(m) => {
                push_str(&mut s, "Serialization error: ");
                push_str(&mut s, m.as_str());
            },
        }
        s
    }
}

/// The message for a path without a leading `/`.
pub open spec fn no_root_msg() -> Seq<char> {
    "Path must start with '/'"@
}

/// The message for an empty segment.
pub open spec fn empty_segment_msg() -> Seq<char> {
    "Empty segment (double slash or trailing slash)"@
}

/// The message for a `..` segment.
pub open spec fn dotdot_msg() -> Seq<char> {
    "'..' segments not allowed"@
}

/// The problem with the first bad segment, if any: an empty segment or `..`.
pub open spec fn segment_problem(segs: Seq<Seq<char>>) -> Option<Seq<char>>
    decreases segs.len(),
{
    if segs.len() == 0 {
        None
    } else if segs[0].len() == 0 {
        Some(empty_segment_msg())
    } else if segs[0] == ".."@ {
        Some(dotdot_msg())
    } else {
        segment_problem(segs.drop_first())
    }
}

/// The trimmed segments of a path after its leading `/`.
pub open spec fn path_segments(p: Seq<char>) -> Seq<Seq<char>> {
    split_chars(p.drop_first(), '/').map_values(|s: Seq<char>| trim(s))
}

/// What parsing a path gives: its segments, or the message of the problem.
pub open spec fn spec_parse_path(p: Seq<char>) -> Result<Seq<Seq<char>>, Seq<char>> {
    if p.len() == 0 || p[0] != '/' {
        Err(no_root_msg())
    } else if p.len() == 1 {
        Ok(Seq::empty())
    } else {
        match segment_problem(path_segments(p)) {
            Some(m) => Err(m),
            None => Ok(path_segments(p)),
        }
    }
}

/// Views of borrowed texts.
pub open spec fn seg_views(v: Seq<&str>) -> Seq<Seq<char>> {
    v.map_values(|s: &str| s@)
}

/// Split an O-DF path such as `/Objects/Device/Temp` into its segments.
///
/// The path must start with `/`; `/` alone is the root (no segments).
/// Segments are trimmed of white space; an empty segment (double or trailing
/// slash) or a `..` segment makes the path invalid.
pub fn parse_path(path: &str) -> (r: Result<Vec<&str>, TreeError>)
    ensures
        match spec_parse_path(path@) {
            Ok(segs) => r is Ok && seg_views(r->Ok_0@) == segs,
            Err(m) => (r matches Err(TreeError::InvalidPath(s)) && s@ == m),
        },
{
    let cs = chars_of(path);
    let n = cs.len();
    if n == 0 || cs[0] != '/' {
        return Err(TreeError::InvalidPath(text::to_string("Path must start with '/'")));
    }
    if n == 1 {
        let v: Vec<&str> = Vec::new();
        proof {
            assert(seg_views(v@) =~= Seq::<Seq<char>>::empty());
        }
        return Ok(v);
    }
    let rest = &cs[1..n];
    let ranges = scan::split_ranges(rest, '/');
    let ghost segs = path_segments(path@);
    proof {
        assert(rest@ =~= path@.drop_first());
    }
    let dots = chars_of("..");
    let mut out: Vec<&str> = Vec::new();
    let mut k: usize = 0;
    proof {
        assert(segs.skip(0) =~= segs);
        assert(seg_views(out@) =~= segs.take(0));
    }
    while k < ranges.len()
        invariant
            cs@ == path@,
            n == cs@.len(),
            n > 1,
            path@[0] == '/',
            rest@ == path@.drop_first(),
            segs == path_segments(path@),
            ranges@.len() == split_chars(rest@, '/').len(),
            forall|j: int|
                0 <= j < ranges@.len() ==> (#[trigger] ranges@[j]).0 <= ranges@[j].1 <= rest@.len()
                    && rest@.subrange(ranges@[j].0 as int, ranges@[j].1 as int) == split_chars(
                    rest@,
                    '/',
                )[j],
            dots@ == ".."@,
            k <= ranges@.len(),
            seg_views(out@) == segs.take(k as int),
            segment_problem(segs) == segment_problem(segs.skip(k as int)),
        decreases ranges@.len() - k,
    {
        let (a, b) = ranges[k];
        proof {
            assert(ranges@[k as int] == (a, b));
            assert(rest@.subrange(a as int, b as int) == split_chars(rest@, '/')[k as int]);
        }
        let (ta, tb) = scan::trim_range(cs.as_slice(), a + 1, b + 1);
        proof {
            assert(cs@.subrange(a + 1, b + 1) =~= rest@.subrange(a as int, b as int));
            assert(segs[k as int] == trim(split_chars(rest@, '/')[k as int]));
            assert(cs@.subrange(ta as int, tb as int) == segs[k as int]);
            let t = segs.skip(k as int);
            assert(t[0] == segs[k as int]);
            assert(t.drop_first() =~= segs.skip(k + 1));
        }
        if ta == tb {
            proof {
                let t = segs.skip(k as int);
                assert(t[0].len() == 0);
                assert(segment_problem(t) == Some(empty_segment_msg()));
                assert(path@[0] == '/');
            }
            return Err(
                TreeError::InvalidPath(text::to_string("Empty segment (double slash or trailing slash)")),
            );
        }
        if scan::slice_eq(&cs[ta..tb], dots.as_slice()) {
            proof {
                let t = segs.skip(k as int);
                assert(t[0] == ".."@);
                assert(t[0].len() != 0) by {
                    reveal_strlit("..");
                }
                assert(segment_problem(t) == Some(dotdot_msg()));
                assert(path@[0] == '/');
            }
            return Err(TreeError::InvalidPath(text::to_string("'..' segments not allowed")));
        }
        let seg = path.substring_char(ta, tb);
        let ghost before = out@;
        out.push(seg);
        proof {
            assert(seg@ == segs[k as int]);
            assert(out@ == before.push(seg));
            assert(seg_views(out@) =~= seg_views(before).push(seg@));
            assert(segs.take(k + 1) =~= segs.take(k as int).push(segs[k as int]));
            assert(seg_views(out@) =~= segs.take(k + 1));
        }
        k = k + 1;
    }
    proof {
        assert(segs.take(k as int) =~= segs);
        assert(segs.skip(k as int) =~= Seq::<Seq<char>>::empty());
    }
    Ok(out)
}


/// `Object '<id>' not found`
pub open spec fn object_not_found_msg(id: Seq<char>) -> Seq<char> {
    "Object '"@ + id + "' not found"@
}

/// `'<name>' not found in object '<id>'`
pub open spec fn not_in_object_msg(name: Seq<char>, id: Seq<char>) -> Seq<char> {
    "'"@ + name + "' not found in object '"@ + id + "'"@
}

/// `Object '<name>' not found in '<id>'`
pub open spec fn object_not_in_msg(name: Seq<char>, id: Seq<char>) -> Seq<char> {
    "Object '"@ + name + "' not found in '"@ + id + "'"@
}

/// `'<name>' not found at root`
pub open spec fn not_at_root_msg(name: Seq<char>) -> Seq<char> {
    "'"@ + name + "' not found at root"@
}

/// `'<name>' not found in '<id>'`
pub open spec fn not_in_msg(name: Seq<char>, id: Seq<char>) -> Seq<char> {
    "'"@ + name + "' not found in '"@ + id + "'"@
}

/// `a`, `b` and `c` one after the other.
fn concat3(a: &str, b: &str, c: &str) -> (r: String)
    ensures
        r@ == a@ + b@ + c@,
{
    let mut s = text::to_string(a);
    push_str(&mut s, b);
    push_str(&mut s, c);
    s
}

/// `a` to `e` one after the other.
fn concat5(a: &str, b: &str, c: &str, d: &str, e: &str) -> (r: String)
    ensures
        r@ == a@ + b@ + c@ + d@ + e@,
{
    let mut s = concat3(a, b, c);
    push_str(&mut s, d);
    push_str(&mut s, e);
    s
}

fn object_not_found(id: &str) -> (r: TreeError)
    ensures
        r@ == TreeErrorView::NotFound(object_not_found_msg(id@)),
{
    TreeError::NotFound(concat3("Object '", id, "' not found"))
}

fn not_in_object(name: &str, id: &str) -> (r: TreeError)
    ensures
        r@ == TreeErrorView::NotFound(not_in_object_msg(name@, id@)),
{
    TreeError::NotFound(concat5("'", name, "' not found in object '", id, "'"))
}

fn not_in(name: &str, id: &str) -> (r: TreeError)
    ensures
        r@ == TreeErrorView::NotFound(not_in_msg(name@, id@)),
{
    TreeError::NotFound(concat5("'", name, "' not found in '", id, "'"))
}

fn object_not_in(name: &str, id: &str) -> (r: TreeError)
    ensures
        r@ == TreeErrorView::NotFound(object_not_in_msg(name@, id@)),
{
    TreeError::NotFound(concat5("Object '", name, "' not found in '", id, "'"))
}

/// What a path leads to: the root, an object or an item.
#[derive(Debug)]
pub enum PathTarget<'a> {
    Root(&'a Vec<(String, Object)>),
    Object(&'a Object),
    InfoItem(&'a InfoItem),
}

/// What a path leads to, to change in place.
#[derive(Debug)]
pub enum PathTargetMut<'a> {
    Root(&'a mut Vec<(String, Object)>),
    Object(&'a mut Object),
    InfoItem(&'a mut InfoItem),
}

/// The model of a [`PathTarget`].
pub enum TargetView {
    Root(Map<Seq<char>, ObjectView>),
    Object(ObjectView),
    InfoItem(InfoItemView),
}

/// The model of a path target.
pub open spec fn target_view(t: PathTarget) -> TargetView {
    match t {
        PathTarget::Root(v) => TargetView::Root(child_map(v@)),
        PathTarget::Object(o) => TargetView::Object(o@),
        PathTarget::InfoItem(i) => TargetView::InfoItem(i@),
    }
}

/// The target is well formed.
pub open spec fn target_wf(t: PathTarget) -> bool {
    match t {
        PathTarget::Root(v) => sorted_keys(entry_keys(v@)) && children_wf(v@),
        PathTarget::Object(o) => o.wf(),
        PathTarget::InfoItem(i) => i.wf(),
    }
}

/// What the segments `rest` lead to below the object `o`. On the last
/// segment an item comes before a child object of the same name; every
/// segment before it names a child object.
pub open spec fn resolve_in(o: ObjectView, rest: Seq<Seq<char>>) -> Result<TargetView, TreeErrorView>
    decreases rest.len(),
{
    if rest.len() == 0 {
        Ok(TargetView::Object(o))
    } else if rest.len() == 1 {
        if or_empty(o.items).contains_key(rest[0]) {
            Ok(TargetView::InfoItem(or_empty(o.items)[rest[0]]))
        } else if or_empty(o.objects).contains_key(rest[0]) {
            Ok(TargetView::Object(or_empty(o.objects)[rest[0]]))
        } else {
            Err(TreeErrorView::NotFound(not_in_object_msg(rest[0], o.id)))
        }
    } else if or_empty(o.objects).contains_key(rest[0]) {
        resolve_in(or_empty(o.objects)[rest[0]], rest.drop_first())
    } else {
        Err(TreeErrorView::NotFound(object_not_in_msg(rest[0], o.id)))
    }
}

/// The object `o` with what `rest` leads to below it (as [`resolve_in`]
/// finds it) replaced by `t`.
pub open spec fn replace_in(o: ObjectView, rest: Seq<Seq<char>>, t: TargetView) -> ObjectView
    decreases rest.len(),
{
    if rest.len() == 0 {
        match t {
            TargetView::Object(x) => x,
            _ => o,
        }
    } else if rest.len() == 1 {
        if or_empty(o.items).contains_key(rest[0]) {
            match t {
                TargetView::InfoItem(x) => with_items(o, Some(or_empty(o.items).insert(rest[0], x))),
                _ => o,
            }
        } else {
            match t {
                TargetView::Object(x) => with_objects(o, Some(or_empty(o.objects).insert(rest[0], x))),
                _ => o,
            }
        }
    } else {
        with_objects(
            o,
            Some(
                or_empty(o.objects).insert(
                    rest[0],
                    replace_in(or_empty(o.objects)[rest[0]], rest.drop_first(), t),
                ),
            ),
        )
    }
}

/// What the segments lead to from the root objects `objs`.
pub open spec fn resolve_segments(objs: Map<Seq<char>, ObjectView>, segs: Seq<Seq<char>>) -> Result<
    TargetView,
    TreeErrorView,
> {
    if segs.len() == 0 {
        Ok(TargetView::Root(objs))
    } else if !objs.contains_key(segs[0]) {
        Err(TreeErrorView::NotFound(object_not_found_msg(segs[0])))
    } else {
        resolve_in(objs[segs[0]], segs.drop_first())
    }
}

/// What a path leads to from the root objects `objs`.
pub open spec fn resolve_path(objs: Map<Seq<char>, ObjectView>, path: Seq<char>) -> Result<
    TargetView,
    TreeErrorView,
> {
    match spec_parse_path(path) {
        Err(m) => Err(TreeErrorView::InvalidPath(m)),
        Ok(segs) => resolve_segments(objs, segs),
    }
}

/// The object under `k`, or a new empty one of that id.
pub open spec fn child_or_new(m: Map<Seq<char>, ObjectView>, k: Seq<char>) -> ObjectView {
    if m.contains_key(k) {
        m[k]
    } else {
        new_object_view(k)
    }
}

/// The item under `k`, or a new empty one of capacity `cap`.
pub open spec fn item_or_new(m: Map<Seq<char>, InfoItemView>, k: Seq<char>, cap: nat) -> InfoItemView {
    if m.contains_key(k) {
        m[k]
    } else {
        new_item_view(cap)
    }
}

/// The object `o` after `val` is written to the item `name` reached from it
/// through the child objects `rest`; missing objects and the item are
/// created, the item with a history of `cap` values.
pub open spec fn write_in(o: ObjectView, rest: Seq<Seq<char>>, name: Seq<char>, val: ValueView, cap: nat) -> ObjectView
    decreases rest.len(),
{
    if rest.len() == 0 {
        let items = or_empty(o.items);
        with_items(o, Some(items.insert(name, item_pushed(item_or_new(items, name, cap), val))))
    } else {
        let kids = or_empty(o.objects);
        with_objects(
            o,
            Some(kids.insert(rest[0], write_in(child_or_new(kids, rest[0]), rest.drop_first(), name, val, cap))),
        )
    }
}

/// Whether writing to the item `name` through `rest` below `o` creates
/// anything: an object on the way or the item.
pub open spec fn creates_in(o: ObjectView, rest: Seq<Seq<char>>, name: Seq<char>) -> bool
    decreases rest.len(),
{
    if rest.len() == 0 {
        !or_empty(o.items).contains_key(name)
    } else if !or_empty(o.objects).contains_key(rest[0]) {
        true
    } else {
        creates_in(or_empty(o.objects)[rest[0]], rest.drop_first(), name)
    }
}

/// The objects between the first segment and the item.
pub open spec fn middle(segs: Seq<Seq<char>>) -> Seq<Seq<char>> {
    segs.subrange(1, segs.len() - 1)
}

/// The message for a write to the root.
pub open spec fn root_write_msg() -> Seq<char> {
    "Cannot write a value to root"@
}

/// The message for a write to a path with a single segment.
pub open spec fn short_value_path_msg() -> Seq<char> {
    "Value path must have at least an object and an item (e.g. /Obj/Item)"@
}

/// What writing `val` to `path` does to the root objects `objs`: the new
/// root objects and whether anything was created, or the error.
pub open spec fn write_outcome(objs: Map<Seq<char>, ObjectView>, path: Seq<char>, val: ValueView, cap: nat) -> Result<
    (Map<Seq<char>, ObjectView>, bool),
    TreeErrorView,
> {
    match spec_parse_path(path) {
        Err(m) => Err(TreeErrorView::InvalidPath(m)),
        Ok(segs) => if segs.len() == 0 {
            Err(TreeErrorView::InvalidPath(root_write_msg()))
        } else if segs.len() < 2 {
            Err(TreeErrorView::InvalidPath(short_value_path_msg()))
        } else {
            Ok(
                (
                    objs.insert(
                        segs[0],
                        write_in(child_or_new(objs, segs[0]), middle(segs), segs.last(), val, cap),
                    ),
                    !objs.contains_key(segs[0]) || creates_in(objs[segs[0]], middle(segs), segs.last()),
                ),
            )
        },
    }
}

/// What deleting `target`, reached from `o` through the child objects `rest`,
/// does to `o`, and the error if it fails. The last object drops an item
/// of that name, else a child object; an item or child list left empty is
/// dropped too, which happens also when neither is there.
pub open spec fn delete_in(o: ObjectView, rest: Seq<Seq<char>>, target: Seq<char>) -> (ObjectView, Option<TreeErrorView>)
    decreases rest.len(),
{
    if rest.len() == 0 {
        if or_empty(o.items).contains_key(target) {
            (with_items(o, without_key(o.items, target)), None)
        } else {
            (
                with_objects(with_items(o, without_key(o.items, target)), without_key(o.objects, target)),
                if or_empty(o.objects).contains_key(target) {
                    None
                } else {
                    Some(TreeErrorView::NotFound(not_in_msg(target, o.id)))
                },
            )
        }
    } else if !or_empty(o.objects).contains_key(rest[0]) {
        (o, Some(TreeErrorView::NotFound(object_not_in_msg(rest[0], o.id))))
    } else {
        let kids = or_empty(o.objects);
        let (c, e) = delete_in(kids[rest[0]], rest.drop_first(), target);
        (with_objects(o, Some(kids.insert(rest[0], c))), e)
    }
}

/// The message for deleting the root.
pub open spec fn root_delete_msg() -> Seq<char> {
    "Cannot delete root"@
}

/// What deleting `path` does to the root objects `objs`, and the error if
/// it fails.
pub open spec fn delete_outcome(objs: Map<Seq<char>, ObjectView>, path: Seq<char>) -> (
    Map<Seq<char>, ObjectView>,
    Option<TreeErrorView>,
) {
    match spec_parse_path(path) {
        Err(m) => (objs, Some(TreeErrorView::InvalidPath(m))),
        Ok(segs) => if segs.len() == 0 {
            (objs, Some(TreeErrorView::Forbidden(root_delete_msg())))
        } else if segs.len() == 1 {
            if objs.contains_key(segs[0]) {
                (objs.remove(segs[0]), None)
            } else {
                (objs, Some(TreeErrorView::NotFound(not_at_root_msg(segs[0]))))
            }
        } else if !objs.contains_key(segs[0]) {
            (objs, Some(TreeErrorView::NotFound(object_not_found_msg(segs[0]))))
        } else {
            let (o, e) = delete_in(objs[segs[0]], middle(segs), segs.last());
            (objs.insert(segs[0], o), e)
        },
    }
}

/// Objects `m` after each object of `s`, in order, is put under its own id.
pub open spec fn merge_objects(m: Map<Seq<char>, ObjectView>, s: Seq<(String, Object)>) -> Map<Seq<char>, ObjectView>
    decreases s.len(),
{
    if s.len() == 0 {
        m
    } else {
        merge_objects(m, s.drop_last()).insert(s.last().1@.id, s.last().1@)
    }
}

/// The object `o` after each object of `s` is added as a child.
pub open spec fn merge_children(o: ObjectView, s: Seq<(String, Object)>) -> ObjectView {
    if s.len() == 0 {
        o
    } else {
        with_objects(o, Some(merge_objects(or_empty(o.objects), s)))
    }
}

/// The object `o` after the objects of `s` are merged into the object
/// reached from it through `rest`, which is created as needed.
pub open spec fn write_tree_in(o: ObjectView, rest: Seq<Seq<char>>, s: Seq<(String, Object)>) -> ObjectView
    decreases rest.len(),
{
    if rest.len() == 0 {
        merge_children(o, s)
    } else {
        let kids = or_empty(o.objects);
        with_objects(o, Some(kids.insert(rest[0], write_tree_in(child_or_new(kids, rest[0]), rest.drop_first(), s))))
    }
}

/// What merging the objects `s` at `path` does to the root objects `objs`.
pub open spec fn write_tree_outcome(objs: Map<Seq<char>, ObjectView>, path: Seq<char>, s: Seq<(String, Object)>) -> Result<
    Map<Seq<char>, ObjectView>,
    TreeErrorView,
> {
    match spec_parse_path(path) {
        Err(m) => Err(TreeErrorView::InvalidPath(m)),
        Ok(segs) => if segs.len() == 0 {
            Ok(merge_objects(objs, s))
        } else {
            Ok(objs.insert(segs[0], write_tree_in(child_or_new(objs, segs[0]), segs.drop_first(), s)))
        },
    }
}

/// Each object of the entries is well formed.
pub open spec fn entries_wf(s: Seq<(String, Object)>) -> bool {
    forall|i: int| 0 <= i < s.len() ==> (#[trigger] s[i]).1.wf()
}

/// Below an object just written to, the written path leads to the item,
/// whose newest value is the one written.
proof fn lemma_write_in_resolves(o: ObjectView, rest: Seq<Seq<char>>, name: Seq<char>, val: ValueView, cap: nat)
    ensures
        resolve_in(write_in(o, rest, name, val, cap), rest.push(name)) matches Ok(TargetView::InfoItem(it))
            && it.values.last() == val,
    decreases rest.len(),
{
    let s = rest.push(name);
    if rest.len() > 0 {
        let kids = or_empty(o.objects);
        lemma_write_in_resolves(child_or_new(kids, rest[0]), rest.drop_first(), name, val, cap);
        assert(s.drop_first() =~= rest.drop_first().push(name));
        assert(s[0] == rest[0]);
    } else {
        assert(s[0] == name);
    }
}

/// Below an object just written to, writing to the same path creates nothing.
proof fn lemma_write_in_twice(o: ObjectView, rest: Seq<Seq<char>>, name: Seq<char>, val: ValueView, cap: nat)
    ensures
        !creates_in(write_in(o, rest, name, val, cap), rest, name),
    decreases rest.len(),
{
    if rest.len() > 0 {
        let kids = or_empty(o.objects);
        lemma_write_in_twice(child_or_new(kids, rest[0]), rest.drop_first(), name, val, cap);
    }
}

/// A path written to leads to an item whose newest value is the value
/// written, whatever the tree held before.
pub proof fn lemma_write_then_resolve(objs: Map<Seq<char>, ObjectView>, path: Seq<char>, val: ValueView, cap: nat)
    requires
        write_outcome(objs, path, val, cap) is Ok,
    ensures
        write_outcome(objs, path, val, cap) matches Ok((after, _)) && resolve_path(after, path) matches Ok(
            TargetView::InfoItem(it),
        ) && it.values.last() == val,
{
    let segs = spec_parse_path(path)->Ok_0;
    let m = middle(segs);
    lemma_write_in_resolves(child_or_new(objs, segs[0]), m, segs.last(), val, cap);
    assert(segs.drop_first() =~= m.push(segs.last()));
}

/// A second write to a path written to creates nothing.
pub proof fn lemma_write_twice_creates_nothing(
    objs: Map<Seq<char>, ObjectView>,
    path: Seq<char>,
    v1: ValueView,
    v2: ValueView,
    cap: nat,
)
    requires
        write_outcome(objs, path, v1, cap) is Ok,
    ensures
        write_outcome(objs, path, v1, cap) matches Ok((after, _)) && write_outcome(after, path, v2, cap) matches Ok(
            (_, created),
        ) && !created,
{
    let segs = spec_parse_path(path)->Ok_0;
    lemma_write_in_twice(child_or_new(objs, segs[0]), middle(segs), segs.last(), v1, cap);
}

/// The root objects `objs` with what `path` leads to below a root object
/// replaced by `t`.
pub open spec fn replace_path(objs: Map<Seq<char>, ObjectView>, path: Seq<char>, t: TargetView) -> Map<
    Seq<char>,
    ObjectView,
> {
    match spec_parse_path(path) {
        Ok(segs) => if segs.len() > 0 && objs.contains_key(segs[0]) {
            objs.insert(segs[0], replace_in(objs[segs[0]], segs.drop_first(), t))
        } else {
            objs
        },
        Err(_) => objs,
    }
}

/// Below an object, replacing what a path leads to by a value of the same
/// kind, then resolving the path, gives that value.
proof fn lemma_replace_in_resolves(o: ObjectView, rest: Seq<Seq<char>>, t: TargetView)
    requires
        resolve_in(o, rest) matches Ok(t0) && ((t0 is Object && t is Object) || (t0 is InfoItem
            && t is InfoItem)),
    ensures
        resolve_in(replace_in(o, rest, t), rest) == Ok::<TargetView, TreeErrorView>(t),
    decreases rest.len(),
{
    if rest.len() > 1 {
        lemma_replace_in_resolves(or_empty(o.objects)[rest[0]], rest.drop_first(), t);
    }
}

/// Changing what a path leads to (an object or an item, as through
/// [`ObjectTree::resolve_mut`]) and resolving the path again gives what it
/// was changed to.
pub proof fn lemma_change_then_resolve(objs: Map<Seq<char>, ObjectView>, path: Seq<char>, t: TargetView)
    requires
        resolve_path(objs, path) matches Ok(t0) && ((t0 is Object && t is Object) || (t0 is InfoItem
            && t is InfoItem)),
    ensures
        resolve_path(replace_path(objs, path, t), path) == Ok::<TargetView, TreeErrorView>(t),
{
    let segs = spec_parse_path(path)->Ok_0;
    lemma_replace_in_resolves(objs[segs[0]], segs.drop_first(), t);
}

/// The root of the O-DF tree: objects sorted by id, and the capacity given
/// to the history of each item that a write creates.
pub struct ObjectTree {
    objects: Vec<(String, Object)>,
    default_capacity: usize,
}

/// The model of an [`ObjectTree`].
pub struct ObjectTreeView {
    pub objects: Map<Seq<char>, ObjectView>,
    pub default_capacity: nat,
}

impl View for ObjectTree {
    type V = ObjectTreeView;

    closed spec fn view(&self) -> ObjectTreeView {
        ObjectTreeView { objects: child_map(self.objects@), default_capacity: self.default_capacity as nat }
    }
}

/// The capacity of the history of an item that a write creates, when none is given.
pub const DEFAULT_ITEM_CAPACITY: usize = 100;

impl ObjectTree {
    /// The root objects are sorted by id and well formed.
    pub closed spec fn wf(&self) -> bool {
        sorted_keys(entry_keys(self.objects@)) && children_wf(self.objects@)
    }

    /// An empty tree whose writes create items with a history of
    /// [`DEFAULT_ITEM_CAPACITY`] values.
    pub fn new() -> (r: Self)
        ensures
            r.wf(),
            r@.objects == Map::<Seq<char>, ObjectView>::empty(),
            r@.default_capacity == DEFAULT_ITEM_CAPACITY,
    {
        ObjectTree { objects: Vec::new(), default_capacity: DEFAULT_ITEM_CAPACITY }
    }

    /// An empty tree whose writes create items with a history of
    /// `default_capacity` values.
    pub fn with_capacity(default_capacity: usize) -> (r: Self)
        ensures
            r.wf(),
            r@.objects == Map::<Seq<char>, ObjectView>::empty(),
            r@.default_capacity == default_capacity,
    {
        ObjectTree { objects: Vec::new(), default_capacity }
    }

    /// The root entries (id and object), sorted by id.
    pub closed spec fn roots(&self) -> Seq<(String, Object)> {
        self.objects@
    }

    /// The root objects, sorted by id.
    pub fn root_objects(&self) -> (r: &Vec<(String, Object)>)
        requires
            self.wf(),
        ensures
            r@ == self.roots(),
            child_map(r@) == self@.objects,
            sorted_keys(entry_keys(r@)),
            children_wf(r@),
    {
        &self.objects
    }

    /// True if the tree has no root objects.
    pub fn is_empty(&self) -> (r: bool)
        requires
            self.wf(),
        ensures
            r == (self@.objects == Map::<Seq<char>, ObjectView>::empty()),
    {
        proof {
            lemma_sorted_unique(entry_keys(self.objects@));
            lemma_child_map(self.objects@);
            lemma_entries_map(self.objects@, |o: Object| object_view(o));
            if self.objects@.len() > 0 {
                assert(entry_keys(self.objects@)[0] == self.objects@[0].0@);
                assert(self@.objects.contains_key(self.objects@[0].0@));
            }
        }
        self.objects.len() == 0
    }

    /// True if there is a root object with the given id.
    pub fn root_contains(&self, id: &str) -> (r: bool)
        requires
            self.wf(),
        ensures
            r == self@.objects.contains_key(id@),
    {
        proof {
            lemma_sorted_unique(entry_keys(self.objects@));
            lemma_child_map(self.objects@);
            lemma_entries_map(self.objects@, |o: Object| object_view(o));
        }
        match find_entry(&self.objects, id) {
            Ok(i) => {
                proof {
                    assert(entry_keys(self.objects@)[i as int] == id@);
                }
                true
            },
            Err(_) => false,
        }
    }

    /// Take the root object `id` out of the tree.
    fn take_root(&mut self, id: &str) -> (r: Option<Object>)
        requires
            old(self).wf(),
        ensures
            final(self).wf(),
            final(self)@ == (ObjectTreeView { objects: old(self)@.objects.remove(id@), ..old(self)@ }),
            if old(self)@.objects.contains_key(id@) {
                r matches Some(x) && x@ == old(self)@.objects[id@] && x.wf()
            } else {
                r is None
            },
    {
        let ghost f = |o: Object| object_view(o);
        let ghost before = self.objects@;
        proof {
            lemma_sorted_unique(entry_keys(before));
            lemma_child_map(before);
            lemma_children_wf(before);
            lemma_entries_map(before, f);
        }
        match take_entry(&mut self.objects, id) {
            Some((i, o)) => {
                proof {
                    lemma_entries_map_remove(before, f, i as int);
                    assert(entry_keys(before)[i as int] == id@);
                    assert forall|j: int| 0 <= j < self.objects@.len() implies object_wf(#[trigger] self.objects@[j].1) by {
                        if j < i {
                            assert(self.objects@[j] == before[j]);
                        } else {
                            assert(self.objects@[j] == before[j + 1]);
                        }
                    }
                    lemma_children_wf(self.objects@);
                    lemma_child_map(self.objects@);
                }
                Some(o)
            },
            None => {
                proof {
                    assert(entries_map(before, f).remove(id@) =~= entries_map(before, f));
                }
                None
            },
        }
    }

    /// Put a root object under `key`, in place of any object of that id.
    fn put_root(&mut self, key: String, obj: Object)
        requires
            old(self).wf(),
            obj.wf(),
        ensures
            final(self).wf(),
            final(self)@ == (ObjectTreeView { objects: old(self)@.objects.insert(key@, obj@), ..old(self)@ }),
    {
        let ghost f = |o: Object| object_view(o);
        let ghost before = self.objects@;
        proof {
            lemma_sorted_unique(entry_keys(before));
            lemma_child_map(before);
            lemma_children_wf(before);
        }
        let ghost e = (key, obj);
        let (p, prev) = put_entry(&mut self.objects, key, obj);
        proof {
            lemma_child_map(self.objects@);
            match prev {
                Some(_) => {
                    lemma_entries_map_update(before, f, p as int, e);
                    assert forall|i: int| 0 <= i < self.objects@.len() implies object_wf(#[trigger] self.objects@[i].1) by {
                        if i != p {
                            assert(self.objects@[i] == before[i]);
                        }
                    }
                },
                None => {
                    lemma_entries_map_insert(before, f, p as int, e);
                    assert forall|i: int| 0 <= i < self.objects@.len() implies object_wf(#[trigger] self.objects@[i].1) by {
                        if i < p {
                            assert(self.objects@[i] == before[i]);
                        } else if i > p {
                            assert(self.objects@[i] == before[i - 1]);
                        }
                    }
                },
            }
            lemma_children_wf(self.objects@);
        }
    }

    /// Insert a root object under its id, giving back the one it replaces.
    pub fn insert_root(&mut self, obj: Object) -> (r: Option<Object>)
        requires
            old(self).wf(),
            obj.wf(),
        ensures
            final(self).wf(),
            final(self)@ == (ObjectTreeView {
                objects: old(self)@.objects.insert(obj@.id, obj@),
                ..old(self)@
            }),
            if old(self)@.objects.contains_key(obj@.id) {
                r matches Some(x) && x@ == old(self)@.objects[obj@.id] && x.wf()
            } else {
                r is None
            },
    {
        let prev = self.take_root(obj.id.as_str());
        let id = obj.id.clone();
        let ghost ov = obj@;
        self.put_root(id, obj);
        proof {
            assert(old(self)@.objects.remove(ov.id).insert(ov.id, ov) =~= old(self)@.objects.insert(ov.id, ov));
        }
        prev
    }

    /// Walk from `obj` through the segments from the `k`-th on.
    fn resolve_from_object<'a>(obj: &'a Object, segs: &Vec<&str>, k: usize) -> (r: Result<PathTarget<'a>, TreeError>)
        requires
            obj.wf(),
            k <= segs@.len(),
        ensures
            match r {
                Ok(t) => resolve_in(obj@, seg_views(segs@).skip(k as int)) == Ok::<TargetView, TreeErrorView>(target_view(t))
                    && target_wf(t),
                Err(e) => resolve_in(obj@, seg_views(segs@).skip(k as int)) == Err::<TargetView, TreeErrorView>(e@),
            },
        decreases segs@.len() - k,
    {
        let ghost rest = seg_views(segs@).skip(k as int);
        if k == segs.len() {
            return Ok(PathTarget::Object(obj));
        }
        let name = segs[k];
        proof {
            assert(rest[0] == name@);
            assert(rest.drop_first() =~= seg_views(segs@).skip(k + 1));
        }
        if k + 1 == segs.len() {
            if let Some(item) = obj.get_item(name) {
                return Ok(PathTarget::InfoItem(item));
            }
            if let Some(child) = obj.get_child(name) {
                return Ok(PathTarget::Object(child));
            }
            return Err(not_in_object(name, obj.id.as_str()));
        }
        match obj.get_child(name) {
            Some(child) => Self::resolve_from_object(child, segs, k + 1),
            None => Err(object_not_in(name, obj.id.as_str())),
        }
    }

    /// Write `val` below `o` (the object of segment `k - 1`) to the item that
    /// ends the path, through the objects of segments `k` up to it.
    fn write_in_object(o: &mut Object, segs: &Vec<&str>, k: usize, val: Value, cap: usize) -> (created: bool)
        requires
            old(o).wf(),
            1 <= k < segs@.len(),
            cap > 0 || !creates_in(old(o)@, seg_views(segs@).subrange(k as int, segs@.len() - 1), seg_views(segs@).last()),
        ensures
            final(o).wf(),
            final(o)@ == write_in(
                old(o)@,
                seg_views(segs@).subrange(k as int, segs@.len() - 1),
                seg_views(segs@).last(),
                val@,
                cap as nat,
            ),
            created == creates_in(old(o)@, seg_views(segs@).subrange(k as int, segs@.len() - 1), seg_views(segs@).last()),
        decreases segs@.len() - k,
    {
        let ghost sv = seg_views(segs@);
        let ghost rest = sv.subrange(k as int, segs@.len() - 1);
        let ghost o0 = o@;
        let n = segs.len();
        if k + 1 == n {
            let name = segs[k];
            proof {
                assert(sv.last() == name@);
                assert(rest.len() == 0);
            }
            let (mut it, created) = match o.remove_item(name) {
                Some(it) => (it, false),
                None => (InfoItem::new(cap), true),
            };
            let ghost it0 = it@;
            it.add_value(val.v, val.t);
            proof {
                lemma_without_then_insert(o0.items, name@, it@);
            }
            o.add_item(text::to_string(name), it);
            created
        } else {
            let seg = segs[k];
            proof {
                assert(rest[0] == seg@);
                assert(rest.drop_first() =~= sv.subrange(k + 1, segs@.len() - 1));
            }
            let (mut c, created) = match o.remove_child(seg) {
                Some(c) => (c, false),
                None => (Object::new(seg), true),
            };
            let below = Self::write_in_object(&mut c, segs, k + 1, val, cap);
            proof {
                lemma_without_then_insert(o0.objects, seg@, c@);
            }
            o.put_child(text::to_string(seg), c);
            created || below
        }
    }

    /// Write one value to the item at `path` (such as `/Device/Temperature`),
    /// creating the objects on the way and the item as needed; a created item
    /// keeps a history of the tree's default capacity. Gives whether anything
    /// was created.
    pub fn write_value(&mut self, path: &str, v: OmiValue, t: Option<u64>) -> (r: Result<bool, TreeError>)
        requires
            old(self).wf(),
            old(self)@.default_capacity > 0 || !(write_outcome(
                old(self)@.objects,
                path@,
                (Value { v, t })@,
                old(self)@.default_capacity,
            ) matches Ok((_, true))),
        ensures
            final(self).wf(),
            match write_outcome(old(self)@.objects, path@, (Value { v, t })@, old(self)@.default_capacity) {
                Ok((objs, created)) => r == Ok::<bool, TreeError>(created) && final(self)@ == (ObjectTreeView {
                    objects: objs,
                    ..old(self)@
                }),
                Err(e) => r matches Err(x) && x@ == e && final(self)@ == old(self)@,
            },
    {
        let segs = match parse_path(path) {
            Ok(segs) => segs,
            Err(e) => {
                return Err(e);
            },
        };
        let ghost sv = seg_views(segs@);
        if segs.len() == 0 {
            return Err(TreeError::InvalidPath(text::to_string("Cannot write a value to root")));
        }
        if segs.len() < 2 {
            return Err(
                TreeError::InvalidPath(
                    text::to_string("Value path must have at least an object and an item (e.g. /Obj/Item)"),
                ),
            );
        }
        let first = segs[0];
        proof {
            assert(sv[0] == first@);
            assert(sv.subrange(1, segs@.len() - 1) == middle(sv));
        }
        let (mut o, created) = match self.take_root(first) {
            Some(o) => (o, false),
            None => (Object::new(first), true),
        };
        let below = Self::write_in_object(&mut o, &segs, 1, Value::new(v, t), self.default_capacity);
        let ghost ov = o@;
        self.put_root(text::to_string(first), o);
        proof {
            assert(old(self)@.objects.remove(first@).insert(first@, ov) =~= old(self)@.objects.insert(first@, ov));
        }
        Ok(created || below)
    }

    /// Delete below `o` (the object of segment `k - 1`) the item or object
    /// that ends the path, through the objects of segments `k` up to it.
    fn delete_in_object(o: &mut Object, segs: &Vec<&str>, k: usize) -> (r: Result<(), TreeError>)
        requires
            old(o).wf(),
            1 <= k < segs@.len(),
        ensures
            final(o).wf(),
            final(o)@ == delete_in(old(o)@, seg_views(segs@).subrange(k as int, segs@.len() - 1), seg_views(segs@).last()).0,
            match delete_in(old(o)@, seg_views(segs@).subrange(k as int, segs@.len() - 1), seg_views(segs@).last()).1 {
                None => r is Ok,
                Some(e) => r matches Err(x) && x@ == e,
            },
        decreases segs@.len() - k,
    {
        let ghost sv = seg_views(segs@);
        let ghost rest = sv.subrange(k as int, segs@.len() - 1);
        let ghost o0 = o@;
        let n = segs.len();
        if k + 1 == n {
            let target = segs[k];
            proof {
                assert(sv.last() == target@);
                assert(rest.len() == 0);
            }
            if o.remove_item(target).is_some() {
                return Ok(());
            }
            if o.remove_child(target).is_some() {
                return Ok(());
            }
            return Err(not_in(target, o.id.as_str()));
        }
        let seg = segs[k];
        proof {
            assert(rest[0] == seg@);
            assert(rest.drop_first() =~= sv.subrange(k + 1, segs@.len() - 1));
        }
        if o.get_child(seg).is_none() {
            return Err(object_not_in(seg, o.id.as_str()));
        }
        let mut c = o.remove_child(seg).unwrap();
        let r = Self::delete_in_object(&mut c, segs, k + 1);
        proof {
            lemma_without_then_insert(o0.objects, seg@, c@);
        }
        o.put_child(text::to_string(seg), c);
        r
    }

    /// Delete the object or item at `path`. Under an object, an item comes
    /// before a child object of the same name.
    pub fn delete(&mut self, path: &str) -> (r: Result<(), TreeError>)
        requires
            old(self).wf(),
        ensures
            final(self).wf(),
            final(self)@ == (ObjectTreeView { objects: delete_outcome(old(self)@.objects, path@).0, ..old(self)@ }),
            match delete_outcome(old(self)@.objects, path@).1 {
                None => r is Ok,
                Some(e) => r matches Err(x) && x@ == e,
            },
    {
        let segs = match parse_path(path) {
            Ok(segs) => segs,
            Err(e) => {
                return Err(e);
            },
        };
        let ghost sv = seg_views(segs@);
        if segs.len() == 0 {
            return Err(TreeError::Forbidden(text::to_string("Cannot delete root")));
        }
        let first = segs[0];
        proof {
            assert(sv[0] == first@);
            assert(sv.subrange(1, segs@.len() - 1) == middle(sv));
        }
        if segs.len() == 1 {
            return match self.take_root(first) {
                Some(_) => Ok(()),
                None => {
                    proof {
                        assert(old(self)@.objects.remove(first@) =~= old(self)@.objects);
                    }
                    Err(TreeError::NotFound(concat3("'", first, "' not found at root")))
                },
            };
        }
        let mut o = match self.take_root(first) {
            Some(o) => o,
            None => {
                proof {
                    assert(old(self)@.objects.remove(first@) =~= old(self)@.objects);
                }
                return Err(object_not_found(first));
            },
        };
        let r = Self::delete_in_object(&mut o, &segs, 1);
        let ghost ov = o@;
        self.put_root(text::to_string(first), o);
        proof {
            assert(old(self)@.objects.remove(first@).insert(first@, ov) =~= old(self)@.objects.insert(first@, ov));
        }
        r
    }

    /// Add each object of `objects` as a child of `o`, in order.
    fn merge_into_object(o: &mut Object, objects: Vec<(String, Object)>)
        requires
            old(o).wf(),
            entries_wf(objects@),
        ensures
            final(o).wf(),
            final(o)@ == merge_children(old(o)@, objects@),
    {
        let ghost s = objects@;
        let ghost o0 = o@;
        let mut rest = objects;
        let mut k: usize = 0;
        assert(rest.len() == s.len());
        while rest.len() > 0
            invariant
                o.wf(),
                k <= s.len(),
                s.len() <= usize::MAX,
                rest@ == s.skip(k as int),
                entries_wf(s),
                k == 0 ==> o@ == o0,
                k > 0 ==> o@ == with_objects(o0, Some(merge_objects(or_empty(o0.objects), s.take(k as int)))),
            decreases rest@.len(),
        {
            let (_, obj) = rest.remove(0);
            proof {
                assert(obj == s[k as int].1);
                assert(s.take(k + 1).drop_last() =~= s.take(k as int));
                if k == 0 {
                    assert(merge_objects(or_empty(o0.objects), s.take(0)) =~= or_empty(o0.objects));
                }
            }
            o.add_child(obj);
            proof {
                assert(rest@ =~= s.skip(k + 1));
            }
            k = k + 1;
        }
        proof {
            assert(s.take(k as int) =~= s);
        }
    }

    /// Put each object of `objects` at the root under its own id, in order.
    fn merge_into_root(&mut self, objects: Vec<(String, Object)>)
        requires
            old(self).wf(),
            entries_wf(objects@),
        ensures
            final(self).wf(),
            final(self)@ == (ObjectTreeView { objects: merge_objects(old(self)@.objects, objects@), ..old(self)@ }),
    {
        let ghost s = objects@;
        let ghost t0 = self@;
        let mut rest = objects;
        let mut k: usize = 0;
        assert(rest.len() == s.len());
        proof {
            assert(s.take(0) =~= Seq::<(String, Object)>::empty());
        }
        while rest.len() > 0
            invariant
                self.wf(),
                k <= s.len(),
                s.len() <= usize::MAX,
                rest@ == s.skip(k as int),
                entries_wf(s),
                self@ == (ObjectTreeView { objects: merge_objects(t0.objects, s.take(k as int)), ..t0 }),
            decreases rest@.len(),
        {
            let (_, obj) = rest.remove(0);
            proof {
                assert(obj == s[k as int].1);
                assert(s.take(k + 1).drop_last() =~= s.take(k as int));
            }
            let id = obj.id.clone();
            self.put_root(id, obj);
            proof {
                assert(rest@ =~= s.skip(k + 1));
            }
            k = k + 1;
        }
        proof {
            assert(s.take(k as int) =~= s);
        }
    }

    /// Merge `objects` into the object of segment `k - 1`, reached from `o`
    /// through the objects of the segments from `k` on, created as needed.
    fn write_tree_in_object(o: &mut Object, segs: &Vec<&str>, k: usize, objects: Vec<(String, Object)>)
        requires
            old(o).wf(),
            1 <= k <= segs@.len(),
            entries_wf(objects@),
        ensures
            final(o).wf(),
            final(o)@ == write_tree_in(old(o)@, seg_views(segs@).skip(k as int), objects@),
        decreases segs@.len() - k,
    {
        let ghost sv = seg_views(segs@);
        let ghost rest = sv.skip(k as int);
        let ghost o0 = o@;
        if k == segs.len() {
            Self::merge_into_object(o, objects);
            return;
        }
        let seg = segs[k];
        proof {
            assert(rest[0] == seg@);
            assert(rest.drop_first() =~= sv.skip(k + 1));
        }
        let mut c = match o.remove_child(seg) {
            Some(c) => c,
            None => Object::new(seg),
        };
        Self::write_tree_in_object(&mut c, segs, k + 1, objects);
        proof {
            lemma_without_then_insert(o0.objects, seg@, c@);
        }
        o.put_child(text::to_string(seg), c);
    }

    /// Merge `objects` into the object at `path` (the root for `/`), each
    /// under its own id and in the order given; the objects on the way are
    /// created as needed.
    pub fn write_tree(&mut self, path: &str, objects: Vec<(String, Object)>) -> (r: Result<(), TreeError>)
        requires
            old(self).wf(),
            entries_wf(objects@),
        ensures
            final(self).wf(),
            match write_tree_outcome(old(self)@.objects, path@, objects@) {
                Ok(objs) => r is Ok && final(self)@ == (ObjectTreeView { objects: objs, ..old(self)@ }),
                Err(e) => r matches Err(x) && x@ == e && final(self)@ == old(self)@,
            },
    {
        let segs = match parse_path(path) {
            Ok(segs) => segs,
            Err(e) => {
                return Err(e);
            },
        };
        let ghost sv = seg_views(segs@);
        if segs.len() == 0 {
            self.merge_into_root(objects);
            return Ok(());
        }
        let first = segs[0];
        proof {
            assert(sv[0] == first@);
            assert(sv.drop_first() =~= sv.skip(1));
        }
        let mut o = match self.take_root(first) {
            Some(o) => o,
            None => Object::new(first),
        };
        Self::write_tree_in_object(&mut o, &segs, 1, objects);
        let ghost ov = o@;
        self.put_root(text::to_string(first), o);
        proof {
            assert(old(self)@.objects.remove(first@).insert(first@, ov) =~= old(self)@.objects.insert(first@, ov));
        }
        Ok(())
    }

    /// Walk from `obj` through the segments from the `k`-th on, to change
    /// what they lead to in place.
    fn resolve_from_object_mut<'a>(obj: &'a mut Object, segs: &Vec<&str>, k: usize) -> (r: Result<
        PathTargetMut<'a>,
        TreeError,
    >)
        requires
            old(obj).wf(),
            k <= segs@.len(),
        ensures
            match r {
                Ok(PathTargetMut::Object(x)) => {
                    &&& resolve_in(old(obj)@, seg_views(segs@).skip(k as int)) == Ok::<TargetView, TreeErrorView>(
                        TargetView::Object(x@),
                    )
                    &&& x.wf()
                    &&& final(obj)@ == replace_in(
                        old(obj)@,
                        seg_views(segs@).skip(k as int),
                        TargetView::Object((*final(x))@),
                    )
                    &&& (*final(x)).wf() ==> final(obj).wf()
                },
                Ok(PathTargetMut::InfoItem(x)) => {
                    &&& resolve_in(old(obj)@, seg_views(segs@).skip(k as int)) == Ok::<TargetView, TreeErrorView>(
                        TargetView::InfoItem(x@),
                    )
                    &&& x.wf()
                    &&& final(obj)@ == replace_in(
                        old(obj)@,
                        seg_views(segs@).skip(k as int),
                        TargetView::InfoItem((*final(x))@),
                    )
                    &&& (*final(x)).wf() ==> final(obj).wf()
                },
                Ok(PathTargetMut::Root(_)) => false,
                Err(e) => {
                    &&& resolve_in(old(obj)@, seg_views(segs@).skip(k as int)) == Err::<TargetView, TreeErrorView>(e@)
                    &&& final(obj)@ == old(obj)@
                    &&& final(obj).wf()
                },
            },
        decreases segs@.len() - k,
    {
        let ghost rest = seg_views(segs@).skip(k as int);
        if k == segs.len() {
            return Ok(PathTargetMut::Object(obj));
        }
        let name = segs[k];
        proof {
            assert(rest[0] == name@);
            assert(rest.drop_first() =~= seg_views(segs@).skip(k + 1));
        }
        if k + 1 == segs.len() {
            if obj.get_item(name).is_some() {
                return Ok(PathTargetMut::InfoItem(obj.get_item_mut(name).unwrap()));
            }
            if obj.get_child(name).is_some() {
                return Ok(PathTargetMut::Object(obj.get_child_mut(name).unwrap()));
            }
            return Err(not_in_object(name, obj.id.as_str()));
        }
        if obj.get_child(name).is_none() {
            return Err(object_not_in(name, obj.id.as_str()));
        }
        proof {
            let m = or_empty(obj@.objects);
            assert(m.insert(name@, m[name@]) =~= m);
        }
        let child = obj.get_child_mut(name).unwrap();
        Self::resolve_from_object_mut(child, segs, k + 1)
    }

    /// What a path leads to (as [`ObjectTree::resolve`] finds it), to change
    /// in place. The tree stays well formed when what is changed does.
    pub fn resolve_mut(&mut self, path: &str) -> (r: Result<PathTargetMut<'_>, TreeError>)
        requires
            old(self).wf(),
        ensures
            match r {
                Ok(PathTargetMut::Root(v)) => {
                    &&& resolve_path(old(self)@.objects, path@) == Ok::<TargetView, TreeErrorView>(
                        TargetView::Root(child_map(v@)),
                    )
                    &&& sorted_keys(entry_keys(v@))
                    &&& children_wf(v@)
                    &&& final(self)@ == (ObjectTreeView { objects: child_map((*final(v))@), ..old(self)@ })
                    &&& (sorted_keys(entry_keys((*final(v))@)) && children_wf((*final(v))@)) ==> final(self).wf()
                },
                Ok(PathTargetMut::Object(x)) => {
                    &&& resolve_path(old(self)@.objects, path@) == Ok::<TargetView, TreeErrorView>(
                        TargetView::Object(x@),
                    )
                    &&& x.wf()
                    &&& final(self)@ == (ObjectTreeView {
                        objects: replace_path(old(self)@.objects, path@, TargetView::Object((*final(x))@)),
                        ..old(self)@
                    })
                    &&& (*final(x)).wf() ==> final(self).wf()
                },
                Ok(PathTargetMut::InfoItem(x)) => {
                    &&& resolve_path(old(self)@.objects, path@) == Ok::<TargetView, TreeErrorView>(
                        TargetView::InfoItem(x@),
                    )
                    &&& x.wf()
                    &&& final(self)@ == (ObjectTreeView {
                        objects: replace_path(old(self)@.objects, path@, TargetView::InfoItem((*final(x))@)),
                        ..old(self)@
                    })
                    &&& (*final(x)).wf() ==> final(self).wf()
                },
                Err(e) => {
                    &&& resolve_path(old(self)@.objects, path@) == Err::<TargetView, TreeErrorView>(e@)
                    &&& final(self)@ == old(self)@
                    &&& final(self).wf()
                },
            },
    {
        let segs = match parse_path(path) {
            Ok(segs) => segs,
            Err(e) => {
                return Err(e);
            },
        };
        let ghost sv = seg_views(segs@);
        if segs.len() == 0 {
            return Ok(PathTargetMut::Root(&mut self.objects));
        }
        let first = segs[0];
        proof {
            lemma_sorted_unique(entry_keys(self.objects@));
            lemma_child_map(self.objects@);
            lemma_children_wf(self.objects@);
            lemma_entries_map(self.objects@, |o: Object| object_view(o));
            assert(sv[0] == first@);
            assert(sv.drop_first() =~= sv.skip(1));
        }
        match find_entry(&self.objects, first) {
            Ok(i) => {
                proof {
                    assert(entry_keys(self.objects@)[i as int] == first@);
                }
                proof {
                    let m = self@.objects;
                    assert(m.insert(first@, m[first@]) =~= m);
                }
                let obj = child_entry_mut(&mut self.objects, i);
                if segs.len() == 1 {
                    Ok(PathTargetMut::Object(obj))
                } else {
                    Self::resolve_from_object_mut(obj, &segs, 1)
                }
            },
            Err(_) => Err(object_not_found(first)),
        }
    }

    /// What a path such as `/Device/Temperature` leads to: the root (for `/`),
    /// an object or an item. On the last segment an item comes before a child
    /// object of the same name.
    pub fn resolve(&self, path: &str) -> (r: Result<PathTarget<'_>, TreeError>)
        requires
            self.wf(),
        ensures
            match r {
                Ok(t) => resolve_path(self@.objects, path@) == Ok::<TargetView, TreeErrorView>(target_view(t))
                    && target_wf(t),
                Err(e) => resolve_path(self@.objects, path@) == Err::<TargetView, TreeErrorView>(e@),
            },
    {
        let segs = match parse_path(path) {
            Ok(segs) => segs,
            Err(e) => {
                return Err(e);
            },
        };
        let ghost sv = seg_views(segs@);
        if segs.len() == 0 {
            return Ok(PathTarget::Root(&self.objects));
        }
        let first = segs[0];
        proof {
            lemma_sorted_unique(entry_keys(self.objects@));
            lemma_child_map(self.objects@);
            lemma_children_wf(self.objects@);
            lemma_entries_map(self.objects@, |o: Object| object_view(o));
            assert(sv[0] == first@);
            assert(sv.drop_first() =~= sv.skip(1));
        }
        match find_entry(&self.objects, first) {
            Ok(i) => {
                let obj = &self.objects[i].1;
                proof {
                    assert(entry_keys(self.objects@)[i as int] == first@);
                }
                if segs.len() == 1 {
                    Ok(PathTarget::Object(obj))
                } else {
                    Self::resolve_from_object(obj, &segs, 1)
                }
            },
            Err(_) => Err(object_not_found(first)),
        }
    }
}
} // verus!
