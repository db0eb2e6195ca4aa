//! String-keyed maps of the O-DF tree, kept as vectors of entries sorted by
//! key (the order in which a `BTreeMap<String, _>` lists them).

use vstd::prelude::*;
use crate::text::chars_of;

verus! {

/// Lexicographic order on texts by code point (which is also the order of
/// their UTF-8 bytes).
pub open spec fn key_lt(a: Seq<char>, b: Seq<char>) -> bool
    decreases a.len(),
{
    if a.len() == 0 {
        b.len() > 0
    } else if b.len() == 0 {
        false
    } else if a[0] != b[0] {
        (a[0] as u32) < (b[0] as u32)
    } else {
        key_lt(a.drop_first(), b.drop_first())
    }
}

/// The keys of entries.
pub open spec fn entry_keys<V>(s: Seq<(String, V)>) -> Seq<Seq<char>> {
    s.map_values(|e: (String, V)| e.0@)
}

/// Keys in strictly increasing order.
pub open spec fn sorted_keys(k: Seq<Seq<char>>) -> bool {
    forall|i: int, j: int| 0 <= i < j < k.len() ==> key_lt(#[trigger] k[i], #[trigger] k[j])
}

/// No key occurs twice.
pub open spec fn unique_keys(k: Seq<Seq<char>>) -> bool {
    forall|i: int, j: int| 0 <= i < k.len() && 0 <= j < k.len() && i != j ==> #[trigger] k[i] != #[trigger] k[j]
}

/// The map that entries stand for, each value taken through `f`.
pub open spec fn entries_map<V, W>(s: Seq<(String, V)>, f: spec_fn(V) -> W) -> Map<Seq<char>, W>
    decreases s.len(),
{
    if s.len() == 0 {
        Map::empty()
    } else {
        entries_map(s.drop_last(), f).insert(s.last().0@, f(s.last().1))
    }
}

/// No key sorts before itself.
pub proof fn lemma_key_lt_irreflexive(a: Seq<char>)
    ensures
        !key_lt(a, a),
    decreases a.len(),
{
    if a.len() > 0 {
        lemma_key_lt_irreflexive(a.drop_first());
    }
}

/// The order of keys is transitive.
pub proof fn lemma_key_lt_transitive(a: Seq<char>, b: Seq<char>, c: Seq<char>)
    requires
        key_lt(a, b),
        key_lt(b, c),
    ensures
        key_lt(a, c),
    decreases a.len(),
{
    if a.len() > 0 && b.len() > 0 && c.len() > 0 && a[0] == b[0] && b[0] == c[0] {
        lemma_key_lt_transitive(a.drop_first(), b.drop_first(), c.drop_first());
    }
}

/// Of two different keys, one sorts before the other.
pub proof fn lemma_key_lt_total(a: Seq<char>, b: Seq<char>)
    requires
        a != b,
    ensures
        key_lt(a, b) || key_lt(b, a),
    decreases a.len(),
{
    if a.len() > 0 && b.len() > 0 && a[0] == b[0] {
        if a.drop_first() == b.drop_first() {
            assert(a =~= seq![a[0]] + a.drop_first());
            assert(b =~= seq![b[0]] + b.drop_first());
        }
        lemma_key_lt_total(a.drop_first(), b.drop_first());
    } else if a.len() > 0 && b.len() > 0 && a[0] != b[0] {
        vstd::utf8::char_is_scalar(a[0]);
        vstd::utf8::char_is_scalar(b[0]);
        if (a[0] as u32) == (b[0] as u32) {
            vstd::utf8::char_u32_cast(a[0], a[0] as u32);
            vstd::utf8::char_u32_cast(b[0], b[0] as u32);
        }
    } else if a.len() == 0 && b.len() == 0 {
        assert(a =~= b);
    }
}

/// Keys in increasing order are distinct.
pub proof fn lemma_sorted_unique(k: Seq<Seq<char>>)
    requires
        sorted_keys(k),
    ensures
        unique_keys(k),
{
    assert forall|i: int, j: int| 0 <= i < k.len() && 0 <= j < k.len() && i != j implies #[trigger] k[i]
        != #[trigger] k[j] by {
        if i < j {
            assert(key_lt(k[i], k[j]));
            lemma_key_lt_irreflexive(k[i]);
        } else {
            assert(key_lt(k[j], k[i]));
            lemma_key_lt_irreflexive(k[j]);
        }
    }
}

/// With distinct keys, the map holds exactly the entries' keys, each with
/// its own value.
pub proof fn lemma_entries_map<V, W>(s: Seq<(String, V)>, f: spec_fn(V) -> W)
    requires
        unique_keys(entry_keys(s)),
    ensures
        forall|x: Seq<char>| #[trigger] entries_map(s, f).contains_key(x) <==> entry_keys(s).contains(x),
        forall|i: int| 0 <= i < s.len() ==> #[trigger] entries_map(s, f)[s[i].0@] == f(s[i].1),
    decreases s.len(),
{
    if s.len() > 0 {
        let t = s.drop_last();
        assert(entry_keys(t) =~= entry_keys(s).drop_last());
        assert forall|i: int, j: int| 0 <= i < entry_keys(t).len() && 0 <= j < entry_keys(t).len() && i != j
            implies #[trigger] entry_keys(t)[i] != #[trigger] entry_keys(t)[j] by {
            assert(entry_keys(t)[i] == entry_keys(s)[i]);
            assert(entry_keys(t)[j] == entry_keys(s)[j]);
        }
        lemma_entries_map(t, f);
        let n = s.len() - 1;
        assert forall|x: Seq<char>| #[trigger] entries_map(s, f).contains_key(x) <==> entry_keys(s).contains(x) by {
            if entry_keys(s).contains(x) {
                let i = choose|i: int| 0 <= i < entry_keys(s).len() && entry_keys(s)[i] == x;
                if i < n {
                    assert(entry_keys(t)[i] == x);
                }
            }
            if entries_map(t, f).contains_key(x) {
                let i = choose|i: int| 0 <= i < entry_keys(t).len() && entry_keys(t)[i] == x;
                assert(entry_keys(s)[i] == x);
            }
            if x == s.last().0@ {
                assert(entry_keys(s)[n] == x);
            }
        }
        assert forall|i: int| 0 <= i < s.len() implies #[trigger] entries_map(s, f)[s[i].0@] == f(s[i].1) by {
            if i < n {
                assert(entry_keys(s)[i] == s[i].0@);
                assert(entry_keys(s)[n] == s[n].0@);
                assert(entry_keys(s)[i] != entry_keys(s)[n]);
                assert(t[i] == s[i]);
                assert(entries_map(t, f)[t[i].0@] == f(t[i].1));
            }
        }
    }
}

/// Replacing the value of an entry (its key kept) replaces it in the map.
pub proof fn lemma_entries_map_update<V, W>(s: Seq<(String, V)>, f: spec_fn(V) -> W, i: int, e: (String, V))
    requires
        unique_keys(entry_keys(s)),
        0 <= i < s.len(),
        e.0@ == s[i].0@,
    ensures
        entries_map(s.update(i, e), f) == entries_map(s, f).insert(e.0@, f(e.1)),
        entry_keys(s.update(i, e)) == entry_keys(s),
{
    let u = s.update(i, e);
    assert(entry_keys(u) =~= entry_keys(s));
    lemma_entries_map(s, f);
    lemma_entries_map(u, f);
    let m1 = entries_map(u, f);
    let m2 = entries_map(s, f).insert(e.0@, f(e.1));
    assert forall|x: Seq<char>| m1.contains_key(x) <==> m2.contains_key(x) by {
        if x == e.0@ {
            assert(entry_keys(s)[i] == x);
        }
    }
    assert forall|x: Seq<char>| #[trigger] m1.contains_key(x) implies m1[x] == m2[x] by {
        let j = choose|j: int| 0 <= j < entry_keys(u).len() && entry_keys(u)[j] == x;
        assert(m1[u[j].0@] == f(u[j].1));
        if j == i {
        } else {
            assert(u[j] == s[j]);
            assert(entry_keys(s)[j] != entry_keys(s)[i]);
        }
    }
    assert(m1 =~= m2);
}

/// Inserting an entry with a new key adds it to the map.
pub proof fn lemma_entries_map_insert<V, W>(s: Seq<(String, V)>, f: spec_fn(V) -> W, p: int, e: (String, V))
    requires
        unique_keys(entry_keys(s)),
        0 <= p <= s.len(),
        !entry_keys(s).contains(e.0@),
    ensures
        entries_map(s.insert(p, e), f) == entries_map(s, f).insert(e.0@, f(e.1)),
        entry_keys(s.insert(p, e)) == entry_keys(s).insert(p, e.0@),
        unique_keys(entry_keys(s.insert(p, e))),
{
    let u = s.insert(p, e);
    assert(entry_keys(u) =~= entry_keys(s).insert(p, e.0@));
    assert forall|i: int, j: int| 0 <= i < entry_keys(u).len() && 0 <= j < entry_keys(u).len() && i != j
        implies #[trigger] entry_keys(u)[i] != #[trigger] entry_keys(u)[j] by {
        if i != p && j != p {
            let i2 = if i < p { i } else { i - 1 };
            let j2 = if j < p { j } else { j - 1 };
            assert(entry_keys(u)[i] == entry_keys(s)[i2]);
            assert(entry_keys(u)[j] == entry_keys(s)[j2]);
        } else if i == p {
            let j2 = if j < p { j } else { j - 1 };
            assert(entry_keys(u)[j] == entry_keys(s)[j2]);
        } else {
            let i2 = if i < p { i } else { i - 1 };
            assert(entry_keys(u)[i] == entry_keys(s)[i2]);
        }
    }
    lemma_entries_map(s, f);
    lemma_entries_map(u, f);
    let m1 = entries_map(u, f);
    let m2 = entries_map(s, f).insert(e.0@, f(e.1));
    assert forall|x: Seq<char>| m1.contains_key(x) <==> m2.contains_key(x) by {
        if entry_keys(u).contains(x) {
            let j = choose|j: int| 0 <= j < entry_keys(u).len() && entry_keys(u)[j] == x;
            if j < p {
                assert(entry_keys(s)[j] == x);
            } else if j > p {
                assert(entry_keys(s)[j - 1] == x);
            }
        }
        if entry_keys(s).contains(x) {
            let j = choose|j: int| 0 <= j < entry_keys(s).len() && entry_keys(s)[j] == x;
            if j < p {
                assert(entry_keys(u)[j] == x);
            } else {
                assert(entry_keys(u)[j + 1] == x);
            }
        }
        if x == e.0@ {
            assert(entry_keys(u)[p] == x);
        }
    }
    assert forall|x: Seq<char>| #[trigger] m1.contains_key(x) implies m1[x] == m2[x] by {
        let j = choose|j: int| 0 <= j < entry_keys(u).len() && entry_keys(u)[j] == x;
        assert(m1[u[j].0@] == f(u[j].1));
        if j < p {
            assert(u[j] == s[j]);
            assert(m2[s[j].0@] == f(s[j].1));
        } else if j > p {
            assert(u[j] == s[j - 1]);
            assert(m2[s[j - 1].0@] == f(s[j - 1].1));
        }
    }
    assert(m1 =~= m2);
}

/// Removing the entry at `i` removes its key from the map.
pub proof fn lemma_entries_map_remove<V, W>(s: Seq<(String, V)>, f: spec_fn(V) -> W, i: int)
    requires
        unique_keys(entry_keys(s)),
        0 <= i < s.len(),
    ensures
        entries_map(s.remove(i), f) == entries_map(s, f).remove(s[i].0@),
        entry_keys(s.remove(i)) == entry_keys(s).remove(i),
        unique_keys(entry_keys(s.remove(i))),
{
    let u = s.remove(i);
    assert(entry_keys(u) =~= entry_keys(s).remove(i));
    assert forall|a: int, b: int| 0 <= a < entry_keys(u).len() && 0 <= b < entry_keys(u).len() && a != b
        implies #[trigger] entry_keys(u)[a] != #[trigger] entry_keys(u)[b] by {
        let a2 = if a < i { a } else { a + 1 };
        let b2 = if b < i { b } else { b + 1 };
        assert(entry_keys(u)[a] == entry_keys(s)[a2]);
        assert(entry_keys(u)[b] == entry_keys(s)[b2]);
    }
    lemma_entries_map(s, f);
    lemma_entries_map(u, f);
    let m1 = entries_map(u, f);
    let m2 = entries_map(s, f).remove(s[i].0@);
    assert forall|x: Seq<char>| m1.contains_key(x) <==> m2.contains_key(x) by {
        if entry_keys(u).contains(x) {
            let j = choose|j: int| 0 <= j < entry_keys(u).len() && entry_keys(u)[j] == x;
            let j2 = if j < i { j } else { j + 1 };
            assert(entry_keys(s)[j2] == x);
            assert(entry_keys(s)[j2] != entry_keys(s)[i]);
        }
        if entry_keys(s).contains(x) && x != s[i].0@ {
            let j = choose|j: int| 0 <= j < entry_keys(s).len() && entry_keys(s)[j] == x;
            if j < i {
                assert(entry_keys(u)[j] == x);
            } else {
                assert(j != i);
                assert(entry_keys(u)[j - 1] == x);
            }
        }
    }
    assert forall|x: Seq<char>| #[trigger] m1.contains_key(x) implies m1[x] == m2[x] by {
        let j = choose|j: int| 0 <= j < entry_keys(u).len() && entry_keys(u)[j] == x;
        let j2 = if j < i { j } else { j + 1 };
        assert(u[j] == s[j2]);
        assert(m1[u[j].0@] == f(u[j].1));
        assert(entries_map(s, f)[s[j2].0@] == f(s[j2].1));
    }
    assert(m1 =~= m2);
}

/// The keys of a map in increasing order.
pub open spec fn sorted_names<V>(m: Map<Seq<char>, V>) -> Seq<Seq<char>> {
    choose|s: Seq<Seq<char>>| sorted_keys(s) && s.to_set() == m.dom()
}

/// Two increasing sequences of keys with the same keys are the same.
pub proof fn lemma_sorted_same_set(a: Seq<Seq<char>>, b: Seq<Seq<char>>)
    requires
        sorted_keys(a),
        sorted_keys(b),
        a.to_set() == b.to_set(),
    ensures
        a == b,
    decreases a.len(),
{
    if a.len() == 0 {
        if b.len() > 0 {
            assert(b.to_set().contains(b[0]));
        }
        assert(a =~= b);
    } else {
        assert(a.to_set().contains(a[0]));
        assert(b.len() > 0);
        assert(b.to_set().contains(b[0]));
        let j = choose|j: int| 0 <= j < b.len() && b[j] == a[0];
        let i = choose|i: int| 0 <= i < a.len() && a[i] == b[0];
        if i > 0 && j > 0 {
            assert(key_lt(a[0], a[i]));
            assert(key_lt(b[0], b[j]));
            lemma_key_lt_transitive(a[0], b[0], a[0]);
            lemma_key_lt_irreflexive(a[0]);
        } else if i > 0 {
            assert(b[0] == a[0]);
        }
        assert(a[0] == b[0]);
        let a1 = a.drop_first();
        let b1 = b.drop_first();
        assert forall|x: Seq<char>| a1.to_set().contains(x) <==> b1.to_set().contains(x) by {
            if a1.to_set().contains(x) {
                let k = choose|k: int| 0 <= k < a1.len() && a1[k] == x;
                assert(a[k + 1] == x);
                assert(key_lt(a[0], a[k + 1]));
                lemma_key_lt_irreflexive(x);
                assert(b.to_set().contains(x));
                let m = choose|m: int| 0 <= m < b.len() && b[m] == x;
                assert(m != 0);
                assert(b1[m - 1] == x);
            }
            if b1.to_set().contains(x) {
                let k = choose|k: int| 0 <= k < b1.len() && b1[k] == x;
                assert(b[k + 1] == x);
                assert(key_lt(b[0], b[k + 1]));
                lemma_key_lt_irreflexive(x);
                assert(a.to_set().contains(x));
                let m = choose|m: int| 0 <= m < a.len() && a[m] == x;
                assert(m != 0);
                assert(a1[m - 1] == x);
            }
        }
        assert(a1.to_set() =~= b1.to_set());
        assert(sorted_keys(a1)) by {
            assert forall|x: int, y: int| 0 <= x < y < a1.len() implies key_lt(#[trigger] a1[x], #[trigger] a1[y]) by {
                assert(a1[x] == a[x + 1] && a1[y] == a[y + 1]);
            }
        }
        assert(sorted_keys(b1)) by {
            assert forall|x: int, y: int| 0 <= x < y < b1.len() implies key_lt(#[trigger] b1[x], #[trigger] b1[y]) by {
                assert(b1[x] == b[x + 1] && b1[y] == b[y + 1]);
            }
        }
        lemma_sorted_same_set(a1, b1);
        assert(a =~= seq![a[0]] + a1);
        assert(b =~= seq![b[0]] + b1);
    }
}

/// The keys of sorted entries are the keys of their map in increasing order.
pub proof fn lemma_sorted_names<V, W>(s: Seq<(String, V)>, f: spec_fn(V) -> W)
    requires
        sorted_keys(entry_keys(s)),
    ensures
        sorted_names(entries_map(s, f)) == entry_keys(s),
{
    lemma_sorted_unique(entry_keys(s));
    lemma_entries_map(s, f);
    let k = entry_keys(s);
    assert(k.to_set() =~= entries_map(s, f).dom());
    let t = sorted_names(entries_map(s, f));
    assert(sorted_keys(t) && t.to_set() == entries_map(s, f).dom());
    lemma_sorted_same_set(t, k);
}

/// Compare two keys: negative, zero or positive as `a` sorts before, equal
/// to, or after `b`.
pub fn key_order(a: &str, b: &str) -> (r: i8)
    ensures
        r < 0 <==> key_lt(a@, b@),
        r == 0 <==> a@ == b@,
        r > 0 <==> key_lt(b@, a@),
{
    let ca = chars_of(a);
    let cb = chars_of(b);
    let mut i: usize = 0;
    proof {
        lemma_key_lt_irreflexive(a@);
        assert(a@.skip(0) =~= a@);
        assert(b@.skip(0) =~= b@);
        assert(ca@.subrange(0, 0) =~= cb@.subrange(0, 0));
    }
    while i < ca.len() && i < cb.len() && ca[i] == cb[i]
        invariant
            ca@ == a@,
            cb@ == b@,
            i <= ca@.len(),
            i <= cb@.len(),
            ca@.subrange(0, i as int) == cb@.subrange(0, i as int),
            key_lt(a@, b@) == key_lt(a@.skip(i as int), b@.skip(i as int)),
            key_lt(b@, a@) == key_lt(b@.skip(i as int), a@.skip(i as int)),
        decreases ca@.len() - i,
    {
        proof {
            assert(a@.skip(i as int).drop_first() =~= a@.skip(i + 1));
            assert(b@.skip(i as int).drop_first() =~= b@.skip(i + 1));
            assert(ca@.subrange(0, i + 1) =~= ca@.subrange(0, i as int).push(ca@[i as int]));
            assert(cb@.subrange(0, i + 1) =~= cb@.subrange(0, i as int).push(cb@[i as int]));
        }
        i = i + 1;
    }
    let ghost sa = a@.skip(i as int);
    let ghost sb = b@.skip(i as int);
    if i == ca.len() && i == cb.len() {
        proof {
            assert(ca@.subrange(0, i as int) =~= a@);
            assert(cb@.subrange(0, i as int) =~= b@);
        }
        0
    } else if i == ca.len() {
        proof {
            assert(sa.len() == 0 && sb.len() > 0);
            if a@ == b@ {
                assert(a@.len() == b@.len());
            }
        }
        -1
    } else if i == cb.len() {
        proof {
            assert(sb.len() == 0 && sa.len() > 0);
            if a@ == b@ {
                assert(a@.len() == b@.len());
            }
        }
        1
    } else {
        proof {
            assert(sa[0] == ca@[i as int] && sb[0] == cb@[i as int]);
            vstd::utf8::char_is_scalar(sa[0]);
            vstd::utf8::char_is_scalar(sb[0]);
            if a@ == b@ {
                assert(a@[i as int] == b@[i as int]);
            }
        }
        if (ca[i] as u32) < (cb[i] as u32) {
            -1
        } else {
            proof {
                if (ca@[i as int] as u32) == (cb@[i as int] as u32) {
                    vstd::utf8::char_u32_cast(ca@[i as int], ca@[i as int] as u32);
                    vstd::utf8::char_u32_cast(cb@[i as int], cb@[i as int] as u32);
                }
            }
            1
        }
    }
}

/// Where `key` is among sorted entries: `Ok` with its index, or `Err` with
/// the index at which it would be inserted to keep the order.
pub fn find_entry<V>(s: &Vec<(String, V)>, key: &str) -> (r: Result<usize, usize>)
    requires
        sorted_keys(entry_keys(s@)),
    ensures
        match r {
            Ok(i) => i < s@.len() && s@[i as int].0@ == key@,
            Err(p) => {
                &&& p <= s@.len()
                &&& !entry_keys(s@).contains(key@)
                &&& forall|j: int| 0 <= j < p ==> key_lt(#[trigger] entry_keys(s@)[j], key@)
                &&& forall|j: int| p <= j < s@.len() ==> key_lt(key@, #[trigger] entry_keys(s@)[j])
            },
        },
{
    let ghost k = entry_keys(s@);
    let mut i: usize = 0;
    while i < s.len()
        invariant
            k == entry_keys(s@),
            sorted_keys(k),
            i <= s@.len(),
            forall|j: int| 0 <= j < i ==> key_lt(#[trigger] k[j], key@),
        decreases s@.len() - i,
    {
        let o = key_order(s[i].0.as_str(), key);
        assert(k[i as int] == s@[i as int].0@);
        if o == 0 {
            return Ok(i);
        }
        if o > 0 {
            proof {
                assert forall|j: int| i <= j < s@.len() implies key_lt(key@, #[trigger] k[j]) by {
                    if j > i {
                        assert(key_lt(k[i as int], k[j]));
                        lemma_key_lt_transitive(key@, k[i as int], k[j]);
                    }
                }
                assert forall|j: int| 0 <= j < k.len() implies #[trigger] k[j] != key@ by {
                    if j < i {
                        lemma_key_lt_irreflexive(key@);
                    } else {
                        lemma_key_lt_irreflexive(key@);
                    }
                }
            }
            return Err(i);
        }
        i = i + 1;
    }
    proof {
        assert forall|j: int| 0 <= j < k.len() implies #[trigger] k[j] != key@ by {
            lemma_key_lt_irreflexive(key@);
        }
    }
    Err(i)
}

/// Inserting a key at the position `find_entry` gives keeps the keys sorted.
pub proof fn lemma_sorted_insert(k: Seq<Seq<char>>, p: int, key: Seq<char>)
    requires
        sorted_keys(k),
        0 <= p <= k.len(),
        forall|j: int| 0 <= j < p ==> key_lt(#[trigger] k[j], key),
        forall|j: int| p <= j < k.len() ==> key_lt(key, #[trigger] k[j]),
    ensures
        sorted_keys(k.insert(p, key)),
{
    let u = k.insert(p, key);
    assert forall|i: int, j: int| 0 <= i < j < u.len() implies key_lt(#[trigger] u[i], #[trigger] u[j]) by {
        if i < p && j < p {
            assert(u[i] == k[i] && u[j] == k[j]);
        } else if i < p && j == p {
            assert(u[i] == k[i]);
        } else if i < p && j > p {
            assert(u[i] == k[i] && u[j] == k[j - 1]);
        } else if i == p {
            assert(u[j] == k[j - 1]);
        } else {
            assert(u[i] == k[i - 1] && u[j] == k[j - 1]);
        }
    }
}

/// Removing a key keeps the keys sorted.
pub proof fn lemma_sorted_remove(k: Seq<Seq<char>>, i: int)
    requires
        sorted_keys(k),
        0 <= i < k.len(),
    ensures
        sorted_keys(k.remove(i)),
{
    let u = k.remove(i);
    assert forall|a: int, b: int| 0 <= a < b < u.len() implies key_lt(#[trigger] u[a], #[trigger] u[b]) by {
        let a2 = if a < i { a } else { a + 1 };
        let b2 = if b < i { b } else { b + 1 };
        assert(u[a] == k[a2] && u[b] == k[b2]);
    }
}


/// Put `val` under `key` among sorted entries, in place of the entry of that
/// key if there is one. Gives the index at which the entry now stands and the
/// value it replaced, if any.
pub fn put_entry<V>(s: &mut Vec<(String, V)>, key: String, val: V) -> (r: (usize, Option<V>))
    requires
        sorted_keys(entry_keys(old(s)@)),
    ensures
        sorted_keys(entry_keys(final(s)@)),
        match r.1 {
            Some(o) => {
                &&& r.0 < old(s)@.len()
                &&& old(s)@[r.0 as int].0@ == key@
                &&& old(s)@[r.0 as int].1 == o
                &&& final(s)@ == old(s)@.update(r.0 as int, (key, val))
            },
            None => {
                &&& r.0 <= old(s)@.len()
                &&& !entry_keys(old(s)@).contains(key@)
                &&& final(s)@ == old(s)@.insert(r.0 as int, (key, val))
            },
        },
{
    let ghost k = entry_keys(s@);
    match find_entry(s, key.as_str()) {
        Ok(i) => {
            let ghost before = s@;
            let (_, o) = s.remove(i);
            s.insert(i, (key, val));
            proof {
                assert(s@ =~= before.update(i as int, (key, val)));
                assert(entry_keys(s@) =~= k.update(i as int, key@));
                assert(k.update(i as int, key@) =~= k);
            }
            (i, Some(o))
        },
        Err(p) => {
            let ghost before = s@;
            s.insert(p, (key, val));
            proof {
                assert(entry_keys(s@) =~= k.insert(p as int, key@));
                lemma_sorted_insert(k, p as int, key@);
            }
            (p, None)
        },
    }
}

/// Take the entry of `key` out of sorted entries, if there is one. Gives the
/// index at which it stood and its value.
pub fn take_entry<V>(s: &mut Vec<(String, V)>, key: &str) -> (r: Option<(usize, V)>)
    requires
        sorted_keys(entry_keys(old(s)@)),
    ensures
        sorted_keys(entry_keys(final(s)@)),
        match r {
            Some((i, o)) => {
                &&& i < old(s)@.len()
                &&& old(s)@[i as int].0@ == key@
                &&& old(s)@[i as int].1 == o
                &&& final(s)@ == old(s)@.remove(i as int)
            },
            None => {
                &&& !entry_keys(old(s)@).contains(key@)
                &&& final(s)@ == old(s)@
            },
        },
{
    let ghost k = entry_keys(s@);
    match find_entry(s, key) {
        Ok(i) => {
            let (_, o) = s.remove(i);
            proof {
                assert(entry_keys(s@) =~= k.remove(i as int));
                lemma_sorted_remove(k, i as int);
            }
            Some((i, o))
        },
        Err(_) => None,
    }
}

} // verus!
