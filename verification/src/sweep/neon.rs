//! The aarch64 lane: eight entries a block, four lanes of the fold.

use super::blocks;
use super::{MinMax, SignPred};
use vstd::prelude::*;

verus! {

/// The first index whose entry violates `pred`, in slab order.
pub fn first_violation(nums: &[i64], pred: SignPred) -> (r: Option<usize>)
    ensures
        super::is_first_violation(nums@, pred, r),
{
    blocks::first_violation(nums, pred)
}

/// The exact range with first-occurrence indices; `None` on an empty slab.
pub fn minmax(nums: &[i64]) -> (r: Option<MinMax>)
    ensures
        r is None <==> nums@.len() == 0,
        r matches Some(mm) ==> super::is_minmax(nums@, mm),
{
    blocks::minmax(nums, 4)
}

} // verus!
