//! Saturating 64-bit counters for roll-up statistics.
//!
//! Aggregate counts are derived sums over inputs of unbounded size; they are
//! reported saturated at `u64::MAX` rather than wrapped or rejected.

use vstd::prelude::*;

verus! {

/// `x` clamped into the `u64` range.
pub open spec fn sat_u64(x: int) -> u64 {
    if x > u64::MAX {
        u64::MAX
    } else if x < 0 {
        0
    } else {
        x as u64
    }
}

/// Saturating addition: the sum clamped into the `u64` range.
pub fn sat_add_u64(a: u64, b: u64) -> (r: u64)
    ensures
        r == sat_u64(a + b),
{
    if a > u64::MAX - b {
        u64::MAX
    } else {
        a + b
    }
}

/// Saturation commutes with addition of non-negative terms, so a saturating
/// left fold equals the saturation of the exact sum.
pub proof fn lemma_sat_absorb(p: int, m: int)
    requires
        p >= 0,
        m >= 0,
    ensures
        sat_u64(sat_u64(p) as int + sat_u64(m) as int) == sat_u64(p + m),
{
}

} // verus!
