//! First-violation sign sweeps and min/max enclosure folds over slabs of exact integers.
//!
//! - [`first_violation`]: the index of the first entry that violates a one-sided sign
//!   predicate, in slab order; `None` is the accept verdict.
//! - [`minmax`]: the exact range of the slab, each extremum with the first index that
//!   attains it.
//!
//! [`reference`] gives the semantics; the block lanes ([`neon`], [`avx2`]) meet the same
//! contracts. Entries are `i64`; nothing is rounded anywhere.

pub mod avx2;
mod blocks;
pub mod neon;
pub mod reference;

use vstd::prelude::*;

verus! {

/// A one-sided sign predicate that every entry must satisfy.
#[derive(Clone, Copy, Debug, PartialEq, Eq, Hash, Structural)]
pub enum SignPred {
    /// Every entry must be `>= 0`.
    NonNeg,
    /// Every entry must be `> 0`.
    Pos,
    /// Every entry must be `<= 0`.
    NonPos,
    /// Every entry must be `< 0`.
    Neg,
}

impl SignPred {
    /// The entries that satisfy the predicate.
    pub open spec fn accepts(self, x: int) -> bool {
        match self {
            SignPred::NonNeg => x >= 0,
            SignPred::Pos => x > 0,
            SignPred::NonPos => x <= 0,
            SignPred::Neg => x < 0,
        }
    }

    /// Whether `x` satisfies the predicate.
    pub fn holds(self, x: i64) -> (r: bool)
        ensures
            r == self.accepts(x as int),
    {
        match self {
            SignPred::NonNeg => x >= 0,
            SignPred::Pos => x > 0,
            SignPred::NonPos => x <= 0,
            SignPred::Neg => x < 0,
        }
    }
}

/// The exact range of a slab with first-occurrence indices.
#[derive(Clone, Copy, Debug, PartialEq, Eq, Structural)]
pub struct MinMax {
    /// The minimum value.
    pub min: i64,
    /// The smallest index that attains `min`.
    pub min_idx: usize,
    /// The maximum value.
    pub max: i64,
    /// The smallest index that attains `max`.
    pub max_idx: usize,
}

/// `r` is the verdict of a sign sweep: the first entry that violates `pred`, or `None`
/// where every entry satisfies it.
pub open spec fn is_first_violation(nums: Seq<i64>, pred: SignPred, r: Option<usize>) -> bool {
    match r {
        None => forall|i: int| 0 <= i < nums.len() ==> pred.accepts(#[trigger] nums[i] as int),
        Some(k) => {
            &&& k < nums.len()
            &&& !pred.accepts(nums[k as int] as int)
            &&& forall|i: int| 0 <= i < k ==> pred.accepts(#[trigger] nums[i] as int)
        },
    }
}

/// `mm` holds the extrema of a slab, each at its first occurrence.
pub open spec fn is_minmax(nums: Seq<i64>, mm: MinMax) -> bool {
    &&& mm.min_idx < nums.len() && nums[mm.min_idx as int] == mm.min
    &&& mm.max_idx < nums.len() && nums[mm.max_idx as int] == mm.max
    &&& forall|i: int| 0 <= i < nums.len() ==> mm.min <= #[trigger] nums[i] <= mm.max
    &&& forall|i: int| 0 <= i < mm.min_idx ==> #[trigger] nums[i] != mm.min
    &&& forall|i: int| 0 <= i < mm.max_idx ==> #[trigger] nums[i] != mm.max
}

/// A lane that the entry points can run on.
#[derive(Clone, Copy, Debug, PartialEq, Eq, Structural)]
pub enum Lane {
    /// The scalar reference.
    Reference,
    /// The aarch64 lane.
    Neon,
    /// The x86-64 lane.
    Avx2,
}

/// What decides the lane: the processor architecture and, on x86-64, whether it has
/// AVX2.
#[derive(Clone, Copy, Debug, PartialEq, Eq, Structural)]
pub enum Host {
    /// An aarch64 processor; NEON is part of its baseline.
    Aarch64,
    /// An x86-64 processor.
    X86_64 {
        /// AVX2 was detected.
        avx2: bool,
    },
    /// Any other processor.
    Other,
}

/// The lane for a host.
pub fn active_lane(host: Host) -> (lane: Lane)
    ensures
        lane == (match host {
            Host::Aarch64 => Lane::Neon,
            Host::X86_64 { avx2: true } => Lane::Avx2,
            _ => Lane::Reference,
        }),
{
    match host {
        Host::Aarch64 => Lane::Neon,
        Host::X86_64 { avx2 } => if avx2 {
            Lane::Avx2
        } else {
            Lane::Reference
        },
        Host::Other => Lane::Reference,
    }
}

/// [`first_violation`] on a given lane. The verdict does not depend on the lane.
pub fn first_violation_on(lane: Lane, nums: &[i64], pred: SignPred) -> (r: Option<usize>)
    ensures
        is_first_violation(nums@, pred, r),
{
    match lane {
        Lane::Reference => reference::first_violation(nums, pred),
        Lane::Neon => neon::first_violation(nums, pred),
        Lane::Avx2 => avx2::first_violation(nums, pred),
    }
}

/// [`minmax`] on a given lane. The result does not depend on the lane.
pub fn minmax_on(lane: Lane, nums: &[i64]) -> (r: Option<MinMax>)
    ensures
        r is None <==> nums@.len() == 0,
        r matches Some(mm) ==> is_minmax(nums@, mm),
{
    match lane {
        Lane::Reference => reference::minmax(nums),
        Lane::Neon => neon::minmax(nums),
        Lane::Avx2 => avx2::minmax(nums),
    }
}

/// The first index whose entry violates `pred`, in slab order; `None` where every entry
/// satisfies it.
pub fn first_violation(nums: &[i64], pred: SignPred) -> (r: Option<usize>)
    ensures
        is_first_violation(nums@, pred, r),
{
    blocks::first_violation(nums, pred)
}

/// The exact range of the slab with first-occurrence indices; `None` on an empty slab.
pub fn minmax(nums: &[i64]) -> (r: Option<MinMax>)
    ensures
        r is None <==> nums@.len() == 0,
        r matches Some(mm) ==> is_minmax(nums@, mm),
{
    blocks::minmax(nums, 8)
}

/// Lanes differ in cost alone: the first violation of a sign predicate is unique.
pub proof fn law_first_violation_unique(
    nums: Seq<i64>,
    pred: SignPred,
    r: Option<usize>,
    s: Option<usize>,
)
    requires
        is_first_violation(nums, pred, r),
        is_first_violation(nums, pred, s),
    ensures
        r == s,
{
    match (r, s) {
        (Some(i), Some(j)) => {
            if i < j {
                assert(pred.accepts(nums[i as int] as int));
            } else if j < i {
                assert(pred.accepts(nums[j as int] as int));
            }
        },
        (Some(i), None) => {
            assert(pred.accepts(nums[i as int] as int));
        },
        (None, Some(j)) => {
            assert(pred.accepts(nums[j as int] as int));
        },
        (None, None) => {},
    }
}

/// Lanes differ in cost alone: the extrema and their first places are unique.
pub proof fn law_minmax_unique(nums: Seq<i64>, a: MinMax, b: MinMax)
    requires
        is_minmax(nums, a),
        is_minmax(nums, b),
    ensures
        a == b,
{
    assert(a.min <= nums[b.min_idx as int] <= a.max);
    assert(b.min <= nums[a.min_idx as int] <= b.max);
    assert(a.min <= nums[b.max_idx as int] <= a.max);
    assert(b.min <= nums[a.max_idx as int] <= b.max);
    assert(a.min == b.min && a.max == b.max);
    if a.min_idx < b.min_idx {
        assert(nums[a.min_idx as int] != b.min);
    } else if b.min_idx < a.min_idx {
        assert(nums[b.min_idx as int] != a.min);
    }
    if a.max_idx < b.max_idx {
        assert(nums[a.max_idx as int] != b.max);
    } else if b.max_idx < a.max_idx {
        assert(nums[b.max_idx as int] != a.max);
    }
}

/// A table over one shared positive denominator has the signs of its numerators: a slab of
/// numerators is swept exactly where the table of values would be.
pub proof fn law_shared_denominator_sign(pred: SignPred, num: int, scale: int)
    requires
        scale > 0,
    ensures
        pred.accepts(num * scale) == pred.accepts(num),
{
    assert((num > 0 <==> num * scale > 0) && (num < 0 <==> num * scale < 0)) by (nonlinear_arith)
        requires
            scale > 0,
    ;
}

/// What a verdict says of the entries: where a sweep accepts, every entry has the sign that
/// was asked for; where it names a place, the entry there does not, and every entry in front
/// of it does.
pub proof fn law_verdict_reads_signs(nums: Seq<i64>, pred: SignPred, r: Option<usize>, i: int)
    requires
        is_first_violation(nums, pred, r),
        0 <= i < nums.len(),
        r matches Some(k) ==> i <= k,
    ensures
        r matches Some(k) ==> k < nums.len(),
        r != Some(i as usize) ==> match pred {
            SignPred::NonNeg => 0 <= nums[i],
            SignPred::Pos => 0 < nums[i],
            SignPred::NonPos => nums[i] <= 0,
            SignPred::Neg => nums[i] < 0,
        },
        r == Some(i as usize) ==> match pred {
            SignPred::NonNeg => nums[i] < 0,
            SignPred::Pos => nums[i] <= 0,
            SignPred::NonPos => 0 < nums[i],
            SignPred::Neg => 0 <= nums[i],
        },
{
    match r {
        None => {
            assert(pred.accepts(nums[i] as int));
        },
        Some(k) => {
            if i < k {
                assert(pred.accepts(nums[i] as int));
            }
        },
    }
}

/// The four predicates go together: of two opposite ones exactly one accepts a number, and a
/// number is accepted by one exactly where its negative is accepted by the mirrored one.
pub proof fn law_predicates_mirror(x: int)
    ensures
        SignPred::NonNeg.accepts(x) <==> !SignPred::Neg.accepts(x),
        SignPred::Pos.accepts(x) <==> !SignPred::NonPos.accepts(x),
        SignPred::NonNeg.accepts(x) <==> SignPred::NonPos.accepts(-x),
        SignPred::Pos.accepts(x) <==> SignPred::Neg.accepts(-x),
        SignPred::Pos.accepts(x) <==> SignPred::NonNeg.accepts(x) && x != 0,
        SignPred::NonNeg.accepts(x) ==> SignPred::NonNeg.accepts(x + 1),
        SignPred::NonNeg.accepts(0),
        !SignPred::NonNeg.accepts(-1),
{
}

/// The place of an extremum is the first that holds it, and the two extrema bound every
/// entry.
pub proof fn law_extrema_are_first(nums: Seq<i64>, mm: MinMax, i: int)
    requires
        is_minmax(nums, mm),
        0 <= i < nums.len(),
    ensures
        mm.min_idx < nums.len(),
        mm.max_idx < nums.len(),
        nums[mm.min_idx as int] == mm.min,
        nums[mm.max_idx as int] == mm.max,
        mm.min <= nums[i] <= mm.max,
        nums[i] == mm.min ==> mm.min_idx <= i,
        nums[i] == mm.max ==> mm.max_idx <= i,
{
    if i < mm.min_idx {
        assert(nums[i] != mm.min);
    }
    if i < mm.max_idx {
        assert(nums[i] != mm.max);
    }
}

/// `a / b` is at most `c / d`, for positive `b` and `d`.
pub open spec fn ratio_le(a: int, b: int, c: int, d: int) -> bool {
    a * d <= c * b
}

/// A table over one shared positive denominator has the extrema of its numerators, at the
/// same first places.
pub proof fn law_shared_denominator_range(nums: Seq<i64>, den: int, mm: MinMax, i: int)
    requires
        den > 0,
        is_minmax(nums, mm),
        0 <= i < nums.len(),
    ensures
        ratio_le(mm.min as int, den, nums[i] as int, den),
        ratio_le(nums[i] as int, den, mm.max as int, den),
        ratio_le(nums[i] as int, den, mm.min as int, den) ==> mm.min_idx <= i,
        ratio_le(mm.max as int, den, nums[i] as int, den) ==> mm.max_idx <= i,
{
    let x: int = nums[i] as int;
    let lo: int = mm.min as int;
    let hi: int = mm.max as int;
    assert(lo <= x <= hi);
    assert(lo * den <= x * den && x * den <= hi * den && (x * den <= lo * den ==> x == lo) && (hi
        * den <= x * den ==> x == hi)) by (nonlinear_arith)
        requires
            lo <= x <= hi,
            den > 0,
    ;
}

} // verus!
