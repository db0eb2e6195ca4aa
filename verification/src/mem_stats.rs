//! Memory statistics. This host build has no hardware to query, so every
//! reader reports that the figure is unavailable.

use vstd::prelude::*;

verus! {

/// Memory statistics for a resource (free and total bytes).
#[derive(Debug, Clone, Copy, PartialEq, Eq, Structural)]
pub struct MemStat {
    pub free: u32,
    pub total: u32,
}

/// Free and total heap (internal SRAM); unavailable on the host.
pub fn heap() -> (r: Option<MemStat>)
    ensures
        r is None,
{
    None
}

/// Free and total PSRAM (external SPI RAM); unavailable on the host.
pub fn psram() -> (r: Option<MemStat>)
    ensures
        r is None,
{
    None
}

/// NVS usage statistics for the default partition; unavailable on the host.
pub fn nvs() -> (r: Option<MemStat>)
    ensures
        r is None,
{
    None
}

/// Free and total flash; unavailable on the host.
pub fn flash() -> (r: Option<MemStat>)
    ensures
        r is None,
{
    None
}

} // verus!
