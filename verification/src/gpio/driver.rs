//! Reading a digital level from an O-DF value.

use vstd::prelude::*;
use crate::odf::OmiValue;
use crate::text::str_eq;

verus! {

/// The texts that read as a high level.
pub open spec fn truthy_text(s: Seq<char>) -> bool {
    s == "1"@ || s == "true"@ || s == "high"@ || s == "on"@
}

/// A double, given by its bits, differs from zero (`-0.0` and `0.0` are zero;
/// NaN is not).
pub open spec fn nonzero_double(bits: u64) -> bool {
    bits & 0x7FFF_FFFF_FFFF_FFFFu64 != 0
}

/// Parse an OmiValue as a digital boolean.
///
/// Truthy: `Number(x)` where `x != 0`, `Bool(true)`, `Str("1"|"true"|"high"|"on")`.
/// Everything else is falsy.
pub fn parse_digital(v: &OmiValue) -> (r: bool)
    ensures
        r == match v {
            OmiValue::Number(n) => nonzero_double(*n),
            OmiValue::Bool(b) => *b,
            OmiValue::Str(s) => truthy_text(s@),
            OmiValue::Null => false,
        },
{
    match v {
        OmiValue::Number(n) => *n & 0x7FFF_FFFF_FFFF_FFFFu64 != 0,
        OmiValue::Bool(b) => *b,
        OmiValue::Str(s) => {
            let t = s.as_str();
            str_eq(t, "1") || str_eq(t, "true") || str_eq(t, "high") || str_eq(t, "on")
        },
        OmiValue::Null => false,
    }
}

} // verus!
