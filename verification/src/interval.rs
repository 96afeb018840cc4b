//! Closed intervals of 32-bit values, as both parties hold them.

use vstd::prelude::*;

verus! {

/// The closed interval `[lower, upper]` of `u32` values; empty when
/// `lower > upper`.
#[derive(Clone, Copy, Debug, PartialEq, Eq, Hash)]
pub struct Interval {
    pub lower: u32,
    pub upper: u32,
}

/// `k` lies in `iv`.
pub open spec fn in_interval(iv: Interval, k: u32) -> bool {
    iv.lower <= k <= iv.upper
}

} // verus!
