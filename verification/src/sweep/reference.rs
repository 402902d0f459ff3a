//! The scalar lane: the semantics of the family.

use super::{MinMax, SignPred};
use vstd::prelude::*;

verus! {

/// The first index whose entry violates `pred`, in slab order.
pub fn first_violation(nums: &[i64], pred: SignPred) -> (r: Option<usize>)
    ensures
        super::is_first_violation(nums@, pred, r),
{
    let mut i: usize = 0;
    while i < nums.len()
        invariant
            i <= nums@.len(),
            forall|j: int| 0 <= j < i ==> pred.accepts(#[trigger] nums@[j] as int),
        decreases nums@.len() - i,
    {
        if !pred.holds(nums[i]) {
            return Some(i);
        }
        i = i + 1;
    }
    None
}

/// The exact range with first-occurrence indices; `None` on an empty slab.
pub fn minmax(nums: &[i64]) -> (r: Option<MinMax>)
    ensures
        r is None <==> nums@.len() == 0,
        r matches Some(mm) ==> super::is_minmax(nums@, mm),
{
    if nums.len() == 0 {
        return None;
    }
    let first: i64 = nums[0];
    let mut mm: MinMax = MinMax { min: first, min_idx: 0, max: first, max_idx: 0 };
    let mut i: usize = 1;
    while i < nums.len()
        invariant
            1 <= i <= nums@.len(),
            super::is_minmax(nums@.subrange(0, i as int), mm),
        decreases nums@.len() - i,
    {
        let ghost seen: Seq<i64> = nums@.subrange(0, i as int);
        let ghost next: Seq<i64> = nums@.subrange(0, i + 1);
        let ghost before: MinMax = mm;
        let x: i64 = nums[i];
        if x < mm.min {
            mm.min = x;
            mm.min_idx = i;
        }
        if x > mm.max {
            mm.max = x;
            mm.max_idx = i;
        }
        assert(super::is_minmax(next, mm)) by {
            assert(forall|j: int| 0 <= j < i ==> next[j] == #[trigger] seen[j]);
            assert(next[i as int] == x);
            assert forall|j: int| 0 <= j < next.len() implies mm.min <= #[trigger] next[j]
                <= mm.max by {
                if j < i {
                    assert(before.min <= seen[j] <= before.max);
                }
            }
            assert forall|j: int| 0 <= j < mm.min_idx implies #[trigger] next[j] != mm.min by {
                assert(next[j] == seen[j]);
                assert(before.min <= seen[j]);
            }
            assert forall|j: int| 0 <= j < mm.max_idx implies #[trigger] next[j] != mm.max by {
                assert(next[j] == seen[j]);
                assert(seen[j] <= before.max);
            }
            assert(next[mm.min_idx as int] == mm.min);
            assert(next[mm.max_idx as int] == mm.max);
        }
        i = i + 1;
    }
    assert(nums@.subrange(0, i as int) =~= nums@);
    Some(mm)
}

} // verus!
