//! The O-DF object tree: values, path handling and tree errors.

pub mod map;
pub mod object;
pub mod tree;
pub mod value;

use vstd::prelude::*;
use vstd::arithmetic::power2::{lemma2_to64, lemma_pow2_adds, lemma_pow2_pos, lemma_pow2_strictly_increases, lemma_pow2_unfold, pow2};

verus! {

/// A value held by an O-DF item. A number is held as the bits of its IEEE 754
/// double (`f64::to_bits`), which is what storing and comparing it needs.
#[derive(Debug, Clone, PartialEq)]
pub enum OmiValue {
    Null,
    Bool(bool),
    Number(u64),
    Str(String),
}

/// The mathematical model of an [`OmiValue`]: the text of a string as characters.
pub enum OmiValueView {
    Null,
    Bool(bool),
    Number(u64),
    Str(Seq<char>),
}

impl View for OmiValue {
    type V = OmiValueView;

    open spec fn view(&self) -> OmiValueView {
        match self {
            OmiValue::Null => OmiValueView::Null,
            OmiValue::Bool(b) => OmiValueView::Bool(*b),
            OmiValue::Number(n) => OmiValueView::Number(*n),
            OmiValue::Str(s) => OmiValueView::Str(s@),
        }
    }
}


/// The exponent of the highest power of two not above `n` (for `n > 0`).
pub open spec fn top_bit(n: nat) -> nat {
    choose|k: nat| #[trigger] pow2(k) <= n < pow2(k + 1)
}

/// The bits of the IEEE 754 double whose value is the whole number `n`
/// (below 2^52, so exactly representable): zero for zero; else sign 0, the
/// biased exponent `1023 + k` where `2^k <= n < 2^(k+1)`, and `n - 2^k` as
/// the fraction, aligned to the top of its 52 bits.
pub open spec fn whole_double_bits(n: nat) -> int {
    if n == 0 {
        0
    } else {
        let k = top_bit(n);
        (1023 + k) * pow2(52) + (n - pow2(k)) * pow2((52 - k) as nat)
    }
}

/// Only one exponent has `2^k <= n < 2^(k+1)`.
proof fn lemma_top_bit(n: nat, k: nat)
    requires
        pow2(k) <= n < pow2(k + 1),
    ensures
        top_bit(n) == k,
{
    let j = top_bit(n);
    assert(pow2(j) <= n < pow2(j + 1));
    if j < k {
        if j + 1 < k {
            lemma_pow2_strictly_increases(j + 1, k);
        }
    } else if k < j {
        if k + 1 < j {
            lemma_pow2_strictly_increases(k + 1, j);
        }
    }
}

/// The O-DF number whose value is the whole number `n`.
pub fn whole_number(n: u32) -> (r: OmiValue)
    ensures
        r == OmiValue::Number(whole_double_bits(n as nat) as u64),
        0 <= whole_double_bits(n as nat) < pow2(63),
{
    proof {
        lemma2_to64();
        lemma_pow2_adds(20, 32);
        lemma_pow2_adds(11, 52);
        lemma_pow2_adds(31, 32);
    }
    assert(pow2(52) == 0x10_0000_0000_0000) by {
        assert(pow2(20) == 0x10_0000) by {
            lemma_pow2_adds(4, 16);
            lemma_pow2_adds(16, 4);
        }
    }
    if n == 0 {
        return OmiValue::Number(0);
    }
    let m = n as u64;
    let mut k: u64 = 0;
    let mut p: u64 = 1;
    while p <= m / 2
        invariant
            1 <= p <= m,
            m == n,
            m < 0x1_0000_0000,
            pow2(32) == 0x1_0000_0000,
            p == pow2(k as nat),
            k < 32,
        decreases m - p,
    {
        proof {
            lemma_pow2_unfold((k + 1) as nat);
            if k + 1 >= 32 {
                if k + 1 > 32 {
                    lemma_pow2_strictly_increases(32, (k + 1) as nat);
                }
                assert(false);
            }
        }
        p = p * 2;
        k = k + 1;
    }
    proof {
        lemma_pow2_unfold((k + 1) as nat);
        lemma_top_bit(n as nat, k as nat);
    }
    let mut q: u64 = 1;
    let mut j: u64 = 0;
    while j < 52 - k
        invariant
            k < 32,
            j <= 52 - k,
            q == pow2(j as nat),
            pow2(52) == 0x10_0000_0000_0000,
        decreases 52 - k - j,
    {
        proof {
            lemma_pow2_unfold((j + 1) as nat);
            if j + 1 < 52 {
                lemma_pow2_strictly_increases((j + 1) as nat, 52);
            }
        }
        q = q * 2;
        j = j + 1;
    }
    proof {
        lemma_pow2_adds(k as nat, (52 - k) as nat);
        lemma_pow2_pos(j as nat);
        assert((m - p) * q < p * q) by (nonlinear_arith)
            requires
                m - p < p,
                q > 0,
        ;
    }
    let bits = (1023 + k) * 0x10_0000_0000_0000 + (m - p) * q;
    OmiValue::Number(bits)
}
} // verus!
