//! The result type shared by the three dispatch strategies, and small
//! spec-level helpers their contracts use.

use vstd::prelude::*;

verus! {

/// Outcome of one strategy: the battery's SoC after each timeline hour (Wh)
/// and the total grid cost in the fixed-point cost unit of [`crate::cost`].
pub struct StrategyResult {
    pub soc: Vec<i64>,
    pub total_cost: i128,
}

pub open spec fn spec_min(a: int, b: int) -> int {
    if a <= b {
        a
    } else {
        b
    }
}

pub open spec fn spec_max(a: int, b: int) -> int {
    if a >= b {
        a
    } else {
        b
    }
}

} // verus!
