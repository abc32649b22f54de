//! Costs: whole numbers of cost units, with one value set aside for "infinite".

use vstd::prelude::*;

verus! {

/// A nonnegative cost. `INFINITY` is greater than every finite cost.
pub type Cost = u64;

/// The cost of what cannot be had: infinite, or not known yet.
pub const INFINITY: Cost = 0xffff_ffff_ffff_ffff;

/// The cost that stands for a total: the total itself while it is finite,
/// `INFINITY` from there on.
pub open spec fn clip(total: int) -> Cost {
    if total >= INFINITY {
        INFINITY
    } else if total <= 0 {
        0
    } else {
        total as Cost
    }
}

/// Adds two costs; a sum that reaches `INFINITY` is infinite.
pub fn cost_add(a: Cost, b: Cost) -> (sum: Cost)
    ensures
        sum == clip(a + b),
{
    match a.checked_add(b) {
        Some(s) => s,
        None => INFINITY,
    }
}

/// Clipping a total whose summand was clipped before is clipping the whole total.
pub proof fn lemma_clip_absorbs(a: int, b: int)
    requires
        0 <= a,
        0 <= b,
    ensures
        clip(a + clip(b)) == clip(a + b),
        clip(clip(a) + b) == clip(a + b),
{
}

} // verus!
