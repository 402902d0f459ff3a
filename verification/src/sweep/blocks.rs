//! The shape of the block lanes: eight entries are tested together, a block that reports a
//! hit is scanned again for the exact index, and a range is folded in parallel lanes before
//! its first indices are looked up.

use super::reference;
use super::{MinMax, SignPred};
use vstd::prelude::*;

verus! {

/// The entries tested together.
const BLOCK: usize = 8;

/// Whether some entry of the block at `base` violates `pred`.
fn block_violates(nums: &[i64], base: usize, pred: SignPred) -> (hit: bool)
    requires
        base + BLOCK <= nums@.len(),
    ensures
        !hit <==> (forall|j: int|
            base <= j < base + BLOCK ==> pred.accepts(#[trigger] nums@[j] as int)),
{
    let mut hit: bool = false;
    let mut i: usize = 0;
    while i < BLOCK
        invariant
            i <= BLOCK,
            base + BLOCK <= nums.len(),
            !hit <==> (forall|j: int|
                base <= j < base + i ==> pred.accepts(#[trigger] nums@[j] as int)),
        decreases BLOCK - i,
    {
        let bad: bool = !pred.holds(nums[base + i]);
        hit = hit || bad;
        i = i + 1;
    }
    hit
}

/// Whether some entry of the block at `base` equals `target`.
fn block_holds(nums: &[i64], base: usize, target: i64) -> (hit: bool)
    requires
        base + BLOCK <= nums@.len(),
    ensures
        !hit <==> (forall|j: int| base <= j < base + BLOCK ==> #[trigger] nums@[j] != target),
{
    let mut hit: bool = false;
    let mut i: usize = 0;
    while i < BLOCK
        invariant
            i <= BLOCK,
            base + BLOCK <= nums.len(),
            !hit <==> (forall|j: int| base <= j < base + i ==> #[trigger] nums@[j] != target),
        decreases BLOCK - i,
    {
        let same: bool = nums[base + i] == target;
        hit = hit || same;
        i = i + 1;
    }
    hit
}

/// The first violation, block by block.
pub fn first_violation(nums: &[i64], pred: SignPred) -> (r: Option<usize>)
    ensures
        super::is_first_violation(nums@, pred, r),
{
    let mut base: usize = 0;
    while nums.len() - base >= BLOCK && !block_violates(nums, base, pred)
        invariant
            base <= nums@.len(),
            forall|j: int| 0 <= j < base ==> pred.accepts(#[trigger] nums@[j] as int),
        decreases nums@.len() - base,
    {
        base = base + BLOCK;
    }
    let mut i: usize = base;
    while i < nums.len()
        invariant
            i <= nums@.len(),
            forall|j: int| 0 <= j < i ==> pred.accepts(#[trigger] nums@[j] as int),
        decreases nums@.len() - i,
    {
        if !pred.holds(nums[i]) {
            return Some(i);
        }
        i = i + 1;
    }
    None
}

/// The first index whose entry equals `target`, which occurs.
fn first_index_of(nums: &[i64], target: i64) -> (r: usize)
    requires
        nums@.contains(target),
    ensures
        r < nums@.len(),
        nums@[r as int] == target,
        forall|j: int| 0 <= j < r ==> #[trigger] nums@[j] != target,
{
    let mut base: usize = 0;
    while nums.len() - base >= BLOCK && !block_holds(nums, base, target)
        invariant
            base <= nums@.len(),
            forall|j: int| 0 <= j < base ==> #[trigger] nums@[j] != target,
        decreases nums@.len() - base,
    {
        base = base + BLOCK;
    }
    let mut i: usize = base;
    while i < nums.len() && nums[i] != target
        invariant
            i <= nums@.len(),
            forall|j: int| 0 <= j < i ==> #[trigger] nums@[j] != target,
        decreases nums@.len() - i,
    {
        i = i + 1;
    }
    i
}

/// `lo` and `hi` are entries of the slab that bound its entries before `end`.
spec fn bounds(nums: Seq<i64>, lo: i64, hi: i64, end: int) -> bool {
    &&& nums.contains(lo)
    &&& nums.contains(hi)
    &&& forall|j: int| 0 <= j < end ==> lo <= #[trigger] nums[j] <= hi
}

/// Lane `t` of the fold: entries of the slab that bound those at `t`, `t + width` and so on
/// before `end`.
spec fn lane_bounds(nums: Seq<i64>, lo: i64, hi: i64, t: int, width: int, end: int) -> bool {
    &&& nums.contains(lo)
    &&& nums.contains(hi)
    &&& forall|j: int| 0 <= j < end && j % width == t ==> lo <= #[trigger] nums[j] <= hi
}

/// The extrema of a slab, folded in `width` lanes.
fn extrema(nums: &[i64], width: usize) -> (r: (i64, i64))
    requires
        nums@.len() > 0,
        width > 0,
    ensures
        bounds(nums@, r.0, r.1, nums@.len() as int),
{
    let first: i64 = nums[0];
    assert(nums@.contains(first)) by {
        assert(nums@[0] == first);
    }
    let mut mins: Vec<i64> = vec![first; width];
    let mut maxs: Vec<i64> = vec![first; width];
    let mut base: usize = 0;
    while nums.len() - base >= width
        invariant
            width > 0,
            base <= nums.len(),
            base % width == 0,
            mins@.len() == width,
            maxs@.len() == width,
            forall|t: int|
                #![trigger mins@[t]]
                0 <= t < width ==> lane_bounds(
                    nums@,
                    mins@[t],
                    maxs@[t],
                    t,
                    width as int,
                    base as int,
                ),
        decreases nums@.len() - base,
    {
        let mut t: usize = 0;
        while t < width
            invariant
                width > 0,
                t <= width,
                base + width <= nums.len(),
                base % width == 0,
                mins@.len() == width,
                maxs@.len() == width,
                forall|u: int|
                    #![trigger mins@[u]]
                    0 <= u < t ==> lane_bounds(
                        nums@,
                        mins@[u],
                        maxs@[u],
                        u,
                        width as int,
                        base + width,
                    ),
                forall|u: int|
                    #![trigger mins@[u]]
                    t <= u < width ==> lane_bounds(
                        nums@,
                        mins@[u],
                        maxs@[u],
                        u,
                        width as int,
                        base as int,
                    ),
            decreases width - t,
        {
            let x: i64 = nums[base + t];
            let ghost lo: i64 = mins@[t as int];
            let ghost hi: i64 = maxs@[t as int];
            assert(lane_bounds(nums@, lo, hi, t as int, width as int, base as int));
            assert(nums@.contains(x)) by {
                assert(nums@[base + t] == x);
            }
            if x < mins[t] {
                mins.set(t, x);
            }
            if x > maxs[t] {
                maxs.set(t, x);
            }
            proof {
                let a: i64 = mins@[t as int];
                let b: i64 = maxs@[t as int];
                assert forall|j: int|
                    0 <= j < base + width && j % width as int == t as int implies a
                    <= #[trigger] nums@[j] <= b by {
                    if j >= base {
                        lemma_in_block(base as int, width as int, j);
                    }
                }
            }
            t = t + 1;
        }
        proof {
            lemma_next_block(base as int, width as int);
        }
        base = base + width;
    }
    let mut lo: i64 = mins[0];
    let mut hi: i64 = maxs[0];
    let mut t: usize = 1;
    while t < width
        invariant
            width > 0,
            1 <= t <= width,
            base <= nums.len(),
            mins@.len() == width,
            maxs@.len() == width,
            forall|u: int|
                #![trigger mins@[u]]
                0 <= u < width ==> lane_bounds(
                    nums@,
                    mins@[u],
                    maxs@[u],
                    u,
                    width as int,
                    base as int,
                ),
            nums@.contains(lo),
            nums@.contains(hi),
            forall|u: int| 0 <= u < t ==> lo <= #[trigger] mins@[u],
            forall|u: int| 0 <= u < t ==> #[trigger] maxs@[u] <= hi,
        decreases width - t,
    {
        assert(lane_bounds(nums@, mins@[t as int], maxs@[t as int], t as int, width as int, base as int));
        if mins[t] < lo {
            lo = mins[t];
        }
        if maxs[t] > hi {
            hi = maxs[t];
        }
        t = t + 1;
    }
    assert(bounds(nums@, lo, hi, base as int)) by {
        assert forall|j: int| 0 <= j < base implies lo <= #[trigger] nums@[j] <= hi by {
            let u: int = j % width as int;
            assert(0 <= u < width);
            assert(lane_bounds(nums@, mins@[u], maxs@[u], u, width as int, base as int));
            assert(maxs@[u] <= hi);
        }
    }
    let mut i: usize = base;
    while i < nums.len()
        invariant
            i <= nums@.len(),
            bounds(nums@, lo, hi, i as int),
        decreases nums@.len() - i,
    {
        let x: i64 = nums[i];
        assert(nums@.contains(x)) by {
            assert(nums@[i as int] == x);
        }
        if x < lo {
            lo = x;
        }
        if x > hi {
            hi = x;
        }
        i = i + 1;
    }
    (lo, hi)
}

/// The place of an index in its block is its residue.
proof fn lemma_in_block(base: int, width: int, j: int)
    requires
        width > 0,
        base % width == 0,
        base <= j < base + width,
    ensures
        j == base + j % width,
{
    let k: int = base / width;
    assert(base == width * k) by {
        vstd::arithmetic::div_mod::lemma_fundamental_div_mod(base, width);
    }
    vstd::arithmetic::div_mod::lemma_fundamental_div_mod_converse(j, width, k, j - base);
}

/// Block starts are multiples of the width.
proof fn lemma_next_block(base: int, width: int)
    requires
        width > 0,
        base % width == 0,
    ensures
        (base + width) % width == 0,
{
    vstd::arithmetic::div_mod::lemma_mod_add_multiples_vanish(base, width);
}

/// The range, folded in `width` lanes. Below two blocks the scalar fold is used.
pub fn minmax(nums: &[i64], width: usize) -> (r: Option<MinMax>)
    requires
        width > 0,
    ensures
        r is None <==> nums@.len() == 0,
        r matches Some(mm) ==> super::is_minmax(nums@, mm),
{
    if nums.len() < 16 {
        return reference::minmax(nums);
    }
    let (min, max): (i64, i64) = extrema(nums, width);
    let min_idx: usize = first_index_of(nums, min);
    let max_idx: usize = first_index_of(nums, max);
    Some(MinMax { min, min_idx, max, max_idx })
}

} // verus!
