//! Timestamped values and the fixed-capacity ring buffer that holds an
//! item's history, newest first as O-MI answers it.

use vstd::prelude::*;
use crate::odf::{OmiValue, OmiValueView};

verus! {

/// A timestamped value in the OMI data model. The timestamp (seconds since
/// the UNIX epoch) is held as the bits of its IEEE 754 double.
#[derive(Debug, Clone, PartialEq)]
pub struct Value {
    pub v: OmiValue,
    pub t: Option<u64>,
}

/// The mathematical model of a [`Value`].
pub struct ValueView {
    pub v: OmiValueView,
    pub t: Option<u64>,
}

impl View for Value {
    type V = ValueView;

    open spec fn view(&self) -> ValueView {
        ValueView { v: self.v@, t: self.t }
    }
}

impl Value {
    pub fn new(v: OmiValue, t: Option<u64>) -> (r: Self)
        ensures
            r.v == v,
            r.t == t,
    {
        Value { v, t }
    }
}

/// The models of a sequence of values.
pub open spec fn value_views(s: Seq<Value>) -> Seq<ValueView> {
    s.map_values(|x: Value| x@)
}

/// A copy of an O-DF value.
pub fn copy_omi_value(v: &OmiValue) -> (r: OmiValue)
    ensures
        r@ == v@,
{
    match v {
        OmiValue::Null => OmiValue::Null,
        OmiValue::Bool(b) => OmiValue::Bool(*b),
        OmiValue::Number(n) => OmiValue::Number(*n),
        OmiValue::Str(s) => OmiValue::Str(s.clone()),
    }
}

/// A copy of a timestamped value.
pub fn copy_value(v: &Value) -> (r: Value)
    ensures
        r@ == v@,
{
    Value { v: copy_omi_value(&v.v), t: v.t }
}

/// The history after pushing `v` into a buffer of capacity `cap` holding `c`
/// (oldest first): `v` is appended, and the oldest value leaves when full.
pub open spec fn pushed(c: Seq<ValueView>, cap: nat, v: ValueView) -> Seq<ValueView> {
    if c.len() < cap {
        c.push(v)
    } else {
        c.drop_first().push(v)
    }
}

/// Up to `n` newest values of `c` (oldest first), newest first.
pub open spec fn newest_of(c: Seq<ValueView>, n: nat) -> Seq<ValueView> {
    let take = if n < c.len() {
        n as int
    } else {
        c.len() as int
    };
    c.subrange(c.len() - take, c.len() as int).reverse()
}

/// Up to `n` oldest values of `c` (oldest first), newest first.
pub open spec fn oldest_of(c: Seq<ValueView>, n: nat) -> Seq<ValueView> {
    let take = if n < c.len() {
        n as int
    } else {
        c.len() as int
    };
    c.subrange(0, take).reverse()
}

/// The count limits of a query on values (oldest first): `newest` takes
/// precedence over `oldest`; the answer is newest first.
pub open spec fn limited(c: Seq<ValueView>, newest: Option<usize>, oldest: Option<usize>) -> Seq<
    ValueView,
> {
    match newest {
        Some(n) => newest_of(c, n as nat),
        None => match oldest {
            Some(n) => oldest_of(c, n as nat),
            None => c.reverse(),
        },
    }
}

/// After a push, the newest value is the one pushed.
pub proof fn lemma_push_then_newest(c: Seq<ValueView>, cap: nat, v: ValueView)
    requires
        cap > 0,
        c.len() <= cap,
    ensures
        newest_of(pushed(c, cap, v), 1) == seq![v],
        pushed(c, cap, v).len() == (if c.len() < cap {
            c.len() + 1
        } else {
            cap
        }),
{
    let p = pushed(c, cap, v);
    assert(p.last() == v);
    assert(newest_of(p, 1) =~= seq![v]);
}

proof fn lemma_ring_index(h: int, i: int, cap: int)
    requires
        0 <= h < cap,
        0 <= i < cap,
    ensures
        ((h + 1) % cap + i) % cap == (h + 1 + i) % cap,
        (h + 1 + i) % cap == (if h + 1 + i < cap {
            h + 1 + i
        } else {
            h + 1 + i - cap
        }),
{
    vstd::arithmetic::div_mod::lemma_add_mod_noop(h + 1, i, cap);
    vstd::arithmetic::div_mod::lemma_small_mod(i as nat, cap as nat);
    if h + 1 + i < cap {
        vstd::arithmetic::div_mod::lemma_small_mod((h + 1 + i) as nat, cap as nat);
    } else {
        vstd::arithmetic::div_mod::lemma_mod_sub_multiples_vanish(h + 1 + i, cap);
        vstd::arithmetic::div_mod::lemma_small_mod((h + 1 + i - cap) as nat, cap as nat);
    }
}

/// Fixed-capacity circular buffer of `Value` entries.
///
/// Overwrites oldest entries when full. Provides O(1) insertion and query
/// methods returning values newest first, the order O-MI answers use.
#[derive(Debug)]
pub struct RingBuffer {
    buf: Vec<Option<Value>>,
    head: usize,
    len: usize,
}

impl RingBuffer {
    /// The slot of the `i`-th oldest value.
    spec fn slot(&self, i: int) -> int {
        let cap = self.buf@.len() as int;
        let start = if self.len < cap {
            0
        } else {
            self.head as int
        };
        (start + i) % cap
    }

    /// The stored values, oldest first.
    pub closed spec fn contents(&self) -> Seq<ValueView> {
        Seq::new(self.len as nat, |i: int| self.buf@[self.slot(i)].unwrap()@)
    }

    /// The capacity.
    pub closed spec fn cap(&self) -> nat {
        self.buf@.len()
    }

    /// The slots hold the values in order: before the buffer first fills up,
    /// the values sit in the first slots and `head` follows them.
    pub closed spec fn wf(&self) -> bool {
        &&& self.buf@.len() > 0
        &&& self.head < self.buf@.len()
        &&& self.len <= self.buf@.len()
        &&& (self.len < self.buf@.len() ==> self.head == self.len)
        &&& forall|i: int| 0 <= i < self.len ==> (#[trigger] self.buf@[self.slot(i)]) is Some
    }

    /// A ring buffer of the given capacity, empty.
    pub fn new(capacity: usize) -> (r: Self)
        requires
            capacity > 0,
        ensures
            r.wf(),
            r.cap() == capacity,
            r.contents() == Seq::<ValueView>::empty(),
    {
        let mut buf: Vec<Option<Value>> = Vec::new();
        let mut i: usize = 0;
        while i < capacity
            invariant
                i <= capacity,
                buf@.len() == i,
            decreases capacity - i,
        {
            buf.push(None);
            i = i + 1;
        }
        let r = RingBuffer { buf, head: 0, len: 0 };
        proof {
            assert(r.contents() =~= Seq::<ValueView>::empty());
        }
        r
    }

    /// Whether the buffer is well formed (as every buffer made and changed
    /// through these methods is).
    pub fn is_well_formed(&self) -> (r: bool)
        ensures
            r == self.wf(),
    {
        let cap = self.buf.len();
        if cap == 0 || self.head >= cap || self.len > cap || (self.len < cap && self.head != self.len) {
            return false;
        }
        let start = if self.len < cap {
            0
        } else {
            self.head
        };
        let mut i: usize = 0;
        while i < self.len
            invariant
                cap == self.buf@.len(),
                cap > 0,
                self.len <= cap,
                start < cap,
                start == (if self.len < cap { 0 } else { self.head as int }),
                i <= self.len,
                forall|j: int| 0 <= j < i ==> (#[trigger] self.buf@[self.slot(j)]) is Some,
            decreases self.len - i,
        {
            let k = if i < cap - start {
                start + i
            } else {
                i - (cap - start)
            };
            proof {
                let c = cap as int;
                assert(self.slot(i as int) == (start + i) % c);
                if start + i < cap {
                    vstd::arithmetic::div_mod::lemma_small_mod((start + i) as nat, c as nat);
                } else {
                    vstd::arithmetic::div_mod::lemma_mod_sub_multiples_vanish((start + i) as int, c);
                    vstd::arithmetic::div_mod::lemma_small_mod((start + i - c) as nat, c as nat);
                }
                assert(k == self.slot(i as int));
            }
            if self.buf[k].is_none() {
                return false;
            }
            i = i + 1;
        }
        true
    }

    pub fn capacity(&self) -> (r: usize)
        ensures
            r == self.cap(),
    {
        self.buf.len()
    }

    pub fn len(&self) -> (r: usize)
        ensures
            r == self.contents().len(),
    {
        self.len
    }

    pub fn is_empty(&self) -> (r: bool)
        ensures
            r == (self.contents().len() == 0),
    {
        self.len == 0
    }

    /// Push a value, overwriting the oldest if at capacity.
    pub fn push(&mut self, value: Value)
        requires
            old(self).wf(),
        ensures
            final(self).wf(),
            final(self).cap() == old(self).cap(),
            final(self).contents() == pushed(old(self).contents(), old(self).cap(), value@),
    {
        let ghost old_contents = self.contents();
        let ghost vv = value@;
        let cap = self.buf.len();
        let h = self.head;
        self.buf[h] = Some(value);
        self.head = (h + 1) % cap;
        if self.len < cap {
            self.len = self.len + 1;
        }
        proof {
            let n = self.contents();
            if h + 1 == cap {
                vstd::arithmetic::div_mod::lemma_mod_self_0(cap as int);
            } else {
                vstd::arithmetic::div_mod::lemma_small_mod((h + 1) as nat, cap as nat);
            }
            if old(self).len < cap {
                assert forall|i: int| 0 <= i < self.len implies (#[trigger] self.buf@[self.slot(i)]) is Some by {
                    vstd::arithmetic::div_mod::lemma_small_mod(i as nat, cap as nat);
                    if self.len < cap {
                        assert(self.slot(i) == i);
                    } else {
                        assert(self.head == 0);
                        assert(self.slot(i) == i % (cap as int));
                    }
                    if i < old(self).len {
                        assert(old(self).slot(i) == i);
                    }
                }
                assert(n =~= old_contents.push(vv)) by {
                    assert forall|i: int| 0 <= i < n.len() implies n[i] == old_contents.push(vv)[i] by {
                        vstd::arithmetic::div_mod::lemma_small_mod(i as nat, cap as nat);
                        if self.len < cap {
                            assert(self.slot(i) == i);
                        } else {
                            assert(self.head == 0);
                            assert(self.slot(i) == i % (cap as int));
                        }
                        if i < old(self).len {
                            assert(old(self).slot(i) == i);
                        }
                    }
                }
            } else {
                assert forall|i: int| 0 <= i < self.len implies (#[trigger] self.buf@[self.slot(i)]) is Some by {
                    lemma_ring_index(h as int, i, cap as int);
                    if i < cap - 1 {
                        lemma_ring_index(h as int, i, cap as int);
                        assert(old(self).slot(i + 1) == (h + i + 1) % (cap as int));
                    }
                }
                assert(n =~= old_contents.drop_first().push(vv)) by {
                    assert forall|i: int| 0 <= i < n.len() implies n[i] == old_contents.drop_first().push(vv)[i] by {
                        lemma_ring_index(h as int, i, cap as int);
                        if i < cap - 1 {
                            assert(old(self).slot(i + 1) == (h + i + 1) % (cap as int));
                        }
                    }
                }
            }
        }
    }

    /// Remove every value.
    pub fn clear(&mut self)
        requires
            old(self).wf(),
        ensures
            final(self).wf(),
            final(self).cap() == old(self).cap(),
            final(self).contents() == Seq::<ValueView>::empty(),
    {
        let mut i: usize = 0;
        while i < self.buf.len()
            invariant
                i <= self.buf@.len(),
                self.buf@.len() == old(self).buf@.len(),
                self.buf@.len() > 0,
            decreases self.buf@.len() - i,
        {
            self.buf[i] = None;
            i = i + 1;
        }
        self.head = 0;
        self.len = 0;
        proof {
            assert(self.contents() =~= Seq::<ValueView>::empty());
        }
    }

    /// Copies of the stored values, oldest first.
    pub fn values_oldest_first(&self) -> (r: Vec<Value>)
        requires
            self.wf(),
        ensures
            value_views(r@) == self.contents(),
    {
        let cap = self.buf.len();
        let start = if self.len < cap {
            0
        } else {
            self.head
        };
        let mut out: Vec<Value> = Vec::new();
        let mut i: usize = 0;
        while i < self.len
            invariant
                self.wf(),
                cap == self.buf@.len(),
                start == (if self.len < cap {
                    0
                } else {
                    self.head
                }),
                i <= self.len,
                value_views(out@) == self.contents().subrange(0, i as int),
            decreases self.len - i,
        {
            let idx = if i < cap - start {
                start + i
            } else {
                i - (cap - start)
            };
            proof {
                if i < cap - start {
                    vstd::arithmetic::div_mod::lemma_small_mod((start + i) as nat, cap as nat);
                } else {
                    vstd::arithmetic::div_mod::lemma_mod_sub_multiples_vanish((start + i) as int, cap as int);
                    vstd::arithmetic::div_mod::lemma_small_mod((start + i - cap) as nat, cap as nat);
                }
            }
            assert(idx == self.slot(i as int));
            assert(self.buf@[self.slot(i as int)] is Some);
            let v = match &self.buf[idx] {
                Some(x) => copy_value(x),
                None => Value { v: OmiValue::Null, t: None },
            };
            proof {
                assert(value_views(out@.push(v)) =~= value_views(out@).push(v@));
                assert(self.contents().subrange(0, i + 1) =~= self.contents().subrange(0, i as int).push(
                    v@,
                ));
            }
            out.push(v);
            i = i + 1;
        }
        proof {
            assert(self.contents().subrange(0, i as int) =~= self.contents());
        }
        out
    }

    /// Return up to `n` newest values, newest first.
    pub fn newest(&self, n: usize) -> (r: Vec<Value>)
        requires
            self.wf(),
        ensures
            value_views(r@) == newest_of(self.contents(), n as nat),
    {
        let all = self.values_oldest_first();
        select_values(&all, Some(n), None)
    }

    /// Return up to `n` oldest values, newest first.
    pub fn oldest(&self, n: usize) -> (r: Vec<Value>)
        requires
            self.wf(),
        ensures
            value_views(r@) == oldest_of(self.contents(), n as nat),
    {
        let all = self.values_oldest_first();
        select_values(&all, None, Some(n))
    }
}

/// Apply the count limits of a query to values given oldest first: up to
/// `newest` newest values, else up to `oldest` oldest values, else all;
/// the answer is newest first.
pub fn select_values(values: &Vec<Value>, newest: Option<usize>, oldest: Option<usize>) -> (r: Vec<
    Value,
>)
    ensures
        value_views(r@) == limited(value_views(values@), newest, oldest),
{
    let ghost c = value_views(values@);
    let len = values.len();
    let (from, to): (usize, usize) = match newest {
        Some(n) => {
            let take = if n < len {
                n
            } else {
                len
            };
            (len - take, len)
        },
        None => match oldest {
            Some(n) => {
                let take = if n < len {
                    n
                } else {
                    len
                };
                (0, take)
            },
            None => (0, len),
        },
    };
    let mut out: Vec<Value> = Vec::new();
    let mut i = to;
    while i > from
        invariant
            from <= i <= to <= values@.len(),
            c == value_views(values@),
            value_views(out@) == c.subrange(i as int, to as int).reverse(),
        decreases i - from,
    {
        i = i - 1;
        let v = copy_value(&values[i]);
        proof {
            assert(value_views(out@.push(v)) =~= value_views(out@).push(v@));
            assert(c.subrange(i as int, to as int).reverse() =~= c.subrange(i + 1, to as int).reverse().push(
                c[i as int],
            ));
        }
        out.push(v);
    }
    proof {
        assert(c.subrange(from as int, to as int).reverse() == limited(c, newest, oldest));
    }
    out
}

} // verus!
