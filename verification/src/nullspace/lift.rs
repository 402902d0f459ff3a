//! Two-channel combination and rational reconstruction: from the canonical residues of
//! two primes to primitive integer vectors.
//!
//! Two channels below `2^63` give a modulus `M = pa * pb` below `2^126`, and with it a
//! reconstruction range of `|n|, d <= isqrt(M / 2)`. What does not fit is refused
//! ([`LiftError::Capacity`]); nothing rounds.

use super::arith::{invmod, mulmod, submod};
use super::clearing;
use super::clearing::clear_to_primitive;
use super::fraction;
use super::fraction::{isqrt_u128, ratrec};
use super::profile;
use super::{ModpNullspace, SparseVec};
use crate::nt;
use crate::text;
use crate::text::{push_decimal, push_text};
use vstd::prelude::*;

verus! {

/// Typed refusals of the fixed-width lift.
#[derive(Clone, Copy, Debug, PartialEq, Eq, Structural)]
pub enum LiftError {
    /// The two bundles must come from distinct primes.
    SamePrime {
        /// The repeated prime.
        prime: u64,
    },
    /// Rank or leftmost profile disagree: at least one prime is unlucky for the matrix.
    ProfileMismatch {
        /// Rank under the first prime.
        rank_a: usize,
        /// Rank under the second prime.
        rank_b: usize,
    },
    /// A coordinate did not fit the reconstruction range, or clearing denominators
    /// overflowed 128-bit arithmetic.
    Capacity {
        /// Basis vector index.
        vector: usize,
        /// Coordinate (column) index.
        coord: u32,
    },
}

impl LiftError {
    /// What the refusal says.
    pub open spec fn rendered(self) -> Seq<char> {
        match self {
            LiftError::SamePrime { prime } => "both bundles use prime "@ + text::decimal(prime as int),
            LiftError::ProfileMismatch { rank_a, rank_b } => "rank profiles disagree ("@ + text::decimal(rank_a as int) + " vs "@ + text::decimal(rank_b as int) + "): unlucky prime"@,
            LiftError::Capacity { vector, coord } => "vector "@ + text::decimal(vector as int) + ", coordinate "@ + text::decimal(coord as int) + ": outside two-channel capacity"@,
        }
    }

    /// The text of the refusal.
    pub fn text(&self) -> (r: String)
        ensures
            r@ == self.rendered(),
    {
        let mut s: String = String::new();
        match self {
            LiftError::SamePrime { prime } => {
                push_text(&mut s, "both bundles use prime ");
                push_decimal(&mut s, *prime as u64);
            },
            LiftError::ProfileMismatch { rank_a, rank_b } => {
                push_text(&mut s, "rank profiles disagree (");
                push_decimal(&mut s, *rank_a as u64);
                push_text(&mut s, " vs ");
                push_decimal(&mut s, *rank_b as u64);
                push_text(&mut s, "): unlucky prime");
            },
            LiftError::Capacity { vector, coord } => {
                push_text(&mut s, "vector ");
                push_decimal(&mut s, *vector as u64);
                push_text(&mut s, ", coordinate ");
                push_decimal(&mut s, *coord as u64);
                push_text(&mut s, ": outside two-channel capacity");
            },
        }
        assert(s@ =~= self.rendered());
        s
    }
}

/// `(c, ra, rb)` lists the two residues at coordinate `c`.
pub open spec fn is_residues(va: SparseVec, vb: SparseVec, e: (u32, u64, u64)) -> bool {
    &&& profile::is_pivot(va.idx@, e.0 as int) || profile::is_pivot(vb.idx@, e.0 as int)
    &&& e.1 == profile::coef(va.idx@, va.val@, e.0 as int)
    &&& e.2 == profile::coef(vb.idx@, vb.val@, e.0 as int)
}

/// `s` lists the coordinates that either vector holds, ascending, with the residues of
/// both.
pub open spec fn is_union(va: SparseVec, vb: SparseVec, s: Seq<(u32, u64, u64)>) -> bool {
    &&& forall|i: int, j: int| 0 <= i < j < s.len() ==> (#[trigger] s[i]).0 < (#[trigger] s[j]).0
    &&& forall|i: int| 0 <= i < s.len() ==> is_residues(va, vb, #[trigger] s[i])
    &&& forall|c: int|
        #![trigger profile::is_pivot(va.idx@, c)]
        #![trigger profile::is_pivot(vb.idx@, c)]
        profile::is_pivot(va.idx@, c) || profile::is_pivot(vb.idx@, c) ==> exists|i: int|
            0 <= i < s.len() && (#[trigger] s[i]).0 == c
}

/// The residues of two sparse vectors, coordinate by coordinate.
pub fn union_residues(va: &SparseVec, vb: &SparseVec) -> (s: Vec<(u32, u64, u64)>)
    requires
        va.idx@.len() == va.val@.len(),
        vb.idx@.len() == vb.val@.len(),
        profile::ascending(va.idx@),
        profile::ascending(vb.idx@),
    ensures
        is_union(*va, *vb, s@),
{
    let mut s: Vec<(u32, u64, u64)> = Vec::new();
    let ghost a = va.idx@;
    let ghost b = vb.idx@;
    let mut i: usize = 0;
    let mut j: usize = 0;
    while i < va.idx.len() || j < vb.idx.len()
        invariant
            i <= a.len(),
            j <= b.len(),
            a == va.idx@,
            b == vb.idx@,
            a.len() == va.val@.len(),
            b.len() == vb.val@.len(),
            profile::ascending(a),
            profile::ascending(b),
            forall|k: int, l: int| 0 <= k < l < s@.len() ==> (#[trigger] s@[k]).0 < (
            #[trigger] s@[l]).0,
            forall|k: int| 0 <= k < s@.len() ==> is_residues(*va, *vb, #[trigger] s@[k]),
            forall|k: int, l: int|
                0 <= k < s@.len() && i <= l < a.len() ==> (#[trigger] s@[k]).0 < #[trigger] a[l],
            forall|k: int, l: int|
                0 <= k < s@.len() && j <= l < b.len() ==> (#[trigger] s@[k]).0 < #[trigger] b[l],
            forall|k: int, l: int| 0 <= k < i && j <= l < b.len() ==> #[trigger] a[k]
                < #[trigger] b[l],
            forall|k: int, l: int| 0 <= k < j && i <= l < a.len() ==> #[trigger] b[k]
                < #[trigger] a[l],
            forall|k: int|
                0 <= k < i ==> exists|l: int| 0 <= l < s@.len() && (#[trigger] s@[l]).0 == #[trigger] a[k],
            forall|k: int|
                0 <= k < j ==> exists|l: int| 0 <= l < s@.len() && (#[trigger] s@[l]).0 == #[trigger] b[k],
        decreases a.len() - i + b.len() - j,
    {
        let ghost s1 = s@;
        let left: bool = j == vb.idx.len() || (i < va.idx.len() && va.idx[i] < vb.idx[j]);
        let right: bool = !left && (i == va.idx.len() || vb.idx[j] < va.idx[i]);
        let e: (u32, u64, u64) = if left {
            (va.idx[i], va.val[i], 0)
        } else if right {
            (vb.idx[j], 0, vb.val[j])
        } else {
            (va.idx[i], va.val[i], vb.val[j])
        };
        proof {
            lemma_union_entry(*va, *vb, i as int, j as int, left, right, e);
        }
        s.push(e);
        proof {
            assert(s@[s1.len() as int] == e);
            assert forall|k: int, l: int| 0 <= k < l < s@.len() implies (#[trigger] s@[k]).0 < (
            #[trigger] s@[l]).0 by {
                if l == s1.len() {
                    assert(s@[k] == s1[k]);
                    if right {
                        assert(s1[k].0 < b[j as int]);
                    } else {
                        assert(s1[k].0 < a[i as int]);
                    }
                } else {
                    assert(s1[k].0 < s1[l].0);
                }
            }
            assert forall|k: int| 0 <= k < a.len() && (exists|l: int|
                0 <= l < s1.len() && (#[trigger] s1[l]).0 == #[trigger] a[k]) implies exists|l: int|
                0 <= l < s@.len() && (#[trigger] s@[l]).0 == a[k] by {
                let l: int = choose|l: int| 0 <= l < s1.len() && (#[trigger] s1[l]).0 == a[k];
                assert(s@[l].0 == a[k]);
            }
            assert forall|k: int| 0 <= k < b.len() && (exists|l: int|
                0 <= l < s1.len() && (#[trigger] s1[l]).0 == #[trigger] b[k]) implies exists|l: int|
                0 <= l < s@.len() && (#[trigger] s@[l]).0 == b[k] by {
                let l: int = choose|l: int| 0 <= l < s1.len() && (#[trigger] s1[l]).0 == b[k];
                assert(s@[l].0 == b[k]);
            }
        }
        if left {
            i += 1;
        } else if right {
            j += 1;
        } else {
            i += 1;
            j += 1;
        }
        proof {
            // The new entry is below what is left of both lists.
            assert forall|l: int| i <= l < a.len() implies e.0 < #[trigger] a[l] by {
                if right {
                    if (i as int) < l {
                        assert(a[i as int] < a[l]);
                    }
                } else {
                    assert(a[i - 1] < a[l]);
                }
            }
            assert forall|l: int| j <= l < b.len() implies e.0 < #[trigger] b[l] by {
                if left {
                    if (j as int) < l {
                        assert(b[j as int] < b[l]);
                    }
                } else {
                    assert(b[j - 1] < b[l]);
                }
            }
        }
    }
    proof {
        assert forall|c: int|
            #![trigger profile::is_pivot(va.idx@, c)]
            #![trigger profile::is_pivot(vb.idx@, c)]
            profile::is_pivot(va.idx@, c) || profile::is_pivot(vb.idx@, c) implies exists|i: int|
            0 <= i < s@.len() && (#[trigger] s@[i]).0 == c by {
            if profile::is_pivot(a, c) {
                let k: int = choose|k: int| 0 <= k < a.len() && #[trigger] a[k] == c;
                let l: int = choose|l: int| 0 <= l < s@.len() && (#[trigger] s@[l]).0 == a[k];
                assert(s@[l].0 == c);
            } else {
                let k: int = choose|k: int| 0 <= k < b.len() && #[trigger] b[k] == c;
                let l: int = choose|l: int| 0 <= l < s@.len() && (#[trigger] s@[l]).0 == b[k];
                assert(s@[l].0 == c);
            }
        }
    }
    s
}

/// The next entry of the merge lists both residues.
proof fn lemma_union_entry(
    va: SparseVec,
    vb: SparseVec,
    i: int,
    j: int,
    left: bool,
    right: bool,
    e: (u32, u64, u64),
)
    requires
        va.idx@.len() == va.val@.len(),
        vb.idx@.len() == vb.val@.len(),
        profile::ascending(va.idx@),
        profile::ascending(vb.idx@),
        0 <= i <= va.idx@.len(),
        0 <= j <= vb.idx@.len(),
        i < va.idx@.len() || j < vb.idx@.len(),
        left == (j == vb.idx@.len() || (i < va.idx@.len() && va.idx@[i] < vb.idx@[j])),
        right == (!left && (i == va.idx@.len() || vb.idx@[j] < va.idx@[i])),
        forall|k: int, l: int|
            0 <= k < i && j <= l < vb.idx@.len() ==> #[trigger] va.idx@[k]
                < #[trigger] vb.idx@[l],
        forall|k: int, l: int|
            0 <= k < j && i <= l < va.idx@.len() ==> #[trigger] vb.idx@[k]
                < #[trigger] va.idx@[l],
        e == (if left {
            (va.idx@[i], va.val@[i], 0u64)
        } else if right {
            (vb.idx@[j], 0u64, vb.val@[j])
        } else {
            (va.idx@[i], va.val@[i], vb.val@[j])
        }),
    ensures
        is_residues(va, vb, e),
{
    let a: Seq<u32> = va.idx@;
    let b: Seq<u32> = vb.idx@;
    let c: int = e.0 as int;
    if left {
        assert(a[i] == c);
        profile::lemma_coef_listed(a, va.val@, i);
        if profile::is_pivot(b, c) {
            let k: int = choose|k: int| 0 <= k < b.len() && #[trigger] b[k] == c;
            if k < j {
                assert(b[k] < a[i]);
            } else if j < k {
                assert(b[j] < b[k]);
            }
        }
        assert(profile::coef(b, vb.val@, c) == 0);
    } else if right {
        assert(b[j] == c);
        profile::lemma_coef_listed(b, vb.val@, j);
        if profile::is_pivot(a, c) {
            let k: int = choose|k: int| 0 <= k < a.len() && #[trigger] a[k] == c;
            if k < i {
                assert(a[k] < b[j]);
            } else if i < k {
                assert(a[i] < a[k]);
            }
        }
        assert(profile::coef(a, va.val@, c) == 0);
    } else {
        assert(a[i] == c);
        assert(b[j] == c);
        profile::lemma_coef_listed(a, va.val@, i);
        profile::lemma_coef_listed(b, vb.val@, j);
    }
}

/// `n / d` is a reduced fraction with `|n|, d <= bound` that has the residue `ra` modulo
/// `pa` and the residue `rb` modulo `pb`.
pub open spec fn is_lift(
    n: int,
    d: int,
    ra: int,
    rb: int,
    pa: int,
    pb: int,
    bound: int,
) -> bool {
    &&& 0 < d <= bound
    &&& -bound <= n <= bound
    &&& nt::gcd(nt::abs(n) as nat, d as nat) == 1
    &&& nt::cong(n, ra * d, pa)
    &&& nt::cong(n, rb * d, pb)
}

/// No fraction in range has the two residues.
pub open spec fn has_no_lift(ra: int, rb: int, pa: int, pb: int, bound: int) -> bool {
    forall|n: int, d: int| !#[trigger] is_lift(n, d, ra, rb, pa, pb, bound)
}

/// The first `k` coordinates of `s`, each lifted to a fraction.
pub open spec fn lifts(
    s: Seq<(u32, u64, u64)>,
    rat: Seq<(u32, i128, u128)>,
    k: int,
    pa: int,
    pb: int,
    bound: int,
) -> bool {
    &&& rat.len() == k
    &&& forall|i: int|
        0 <= i < k ==> (#[trigger] rat[i]).0 == s[i].0 && is_lift(
            rat[i].1 as int,
            rat[i].2 as int,
            s[i].1 as int,
            s[i].2 as int,
            pa,
            pb,
            bound,
        )
}

/// `out` is the primitive integer vector that the residues of `va` and `vb` lift to.
pub open spec fn is_lifted(
    va: SparseVec,
    vb: SparseVec,
    pa: int,
    pb: int,
    bound: int,
    out: Seq<(u32, i128)>,
) -> bool {
    exists|s: Seq<(u32, u64, u64)>, rat: Seq<(u32, i128, u128)>|
        #![trigger is_union(va, vb, s), clearing::is_primitive(rat, out)]
        is_union(va, vb, s) && lifts(s, rat, s.len() as int, pa, pb, bound)
            && clearing::is_primitive(rat, out)
}

/// The vectors cannot be lifted: coordinate `coord` is the first without a fraction in
/// range, or all have one and clearing the denominators fails there.
pub open spec fn is_refused(
    va: SparseVec,
    vb: SparseVec,
    pa: int,
    pb: int,
    bound: int,
    coord: u32,
) -> bool {
    exists|s: Seq<(u32, u64, u64)>, rat: Seq<(u32, i128, u128)>, i: int|
        #![trigger is_union(va, vb, s), lifts(s, rat, i, pa, pb, bound)]
        #![trigger is_union(va, vb, s), clearing::clearing_fails_at(rat, i)]
        is_union(va, vb, s) && 0 <= i < s.len() && coord == s[i].0 && {
            ||| lifts(s, rat, i, pa, pb, bound) && has_no_lift(
                s[i].1 as int,
                s[i].2 as int,
                pa,
                pb,
                bound,
            )
            ||| lifts(s, rat, s.len() as int, pa, pb, bound) && clearing::clearing_fails_at(
                rat,
                i,
            )
        }
}

/// The reconstruction bound of the modulus `m`: the integer square root of `m / 2`.
pub open spec fn is_bound(bound: int, m: int) -> bool {
    0 <= bound && bound * bound <= m / 2 < (bound + 1) * (bound + 1)
}

/// The product of the two primes.
pub open spec fn modulus(a: ModpNullspace, b: ModpNullspace) -> int {
    a.prime * b.prime
}

/// The number of basis vectors that both bundles hold.
pub open spec fn pairs(a: ModpNullspace, b: ModpNullspace) -> int {
    if a.basis@.len() <= b.basis@.len() {
        a.basis@.len() as int
    } else {
        b.basis@.len() as int
    }
}

/// The bundles have one rank and one profile.
pub open spec fn agree(a: ModpNullspace, b: ModpNullspace) -> bool {
    a.rank == b.rank && a.pivot_cols@ == b.pivot_cols@
}

/// The bundle's modulus is above one and below `2^63`, and its basis vectors are sparse
/// vectors of nonzero residues.
pub open spec fn is_bundle(a: ModpNullspace) -> bool {
    &&& 1 < a.prime < 0x8000_0000_0000_0000
    &&& forall|k: int|
        0 <= k < a.basis@.len() ==> profile::is_sparse(
            (#[trigger] a.basis@[k]).idx@,
            a.basis@[k].val@,
            0x1_0000_0000,
            a.prime as int,
        )
}

/// The residue modulo `pa * pb` with the residues `ra` and `rb`, by Garner's formula.
fn combine(ra: u64, rb: u64, pa: u64, pb: u64, inv: u64) -> (x: u128)
    requires
        ra < pa,
        pa > 1,
        pb > 1,
    ensures
        x < pa * pb,
        nt::cong(x as int, ra as int, pa as int),
        nt::cong(inv * pa, 1, pb as int) ==> nt::cong(x as int, rb as int, pb as int),
{
    let sa: u64 = ra % pb;
    let sb: u64 = rb % pb;
    let diff: u64 = submod(sb, sa, pb);
    let f: u64 = mulmod(diff, inv, pb);
    proof {
        assert(pa * f + pa <= pa * pb) by (nonlinear_arith)
            requires
                f < pb,
                pa > 1,
        ;
        super::arith::lemma_wide_product(pa, pb);
        assert(0 <= pa * f) by (nonlinear_arith);
    }
    let x: u128 = ra as u128 + pa as u128 * f as u128;
    proof {
        let q: int = pb as int;
        assert(f * pa == pa * f) by (nonlinear_arith);
        nt::cong_from_quotient(x as int, ra as int, pa as int, f as int);
        if nt::cong(inv * pa, 1, q) {
            // pa * f is congruent to diff
            nt::cong_mod(diff * inv, q);
            nt::cong_scale(pa as int, f as int, diff * inv, q);
            assert(pa * (diff * inv) == diff * (inv * pa)) by (nonlinear_arith);
            nt::cong_scale(diff as int, inv * pa, 1, q);
            assert(diff * 1 == diff);
            nt::cong_trans(pa * f, diff * (inv * pa), diff as int, q);
            // diff is congruent to rb - ra
            nt::cong_mod(sb - sa, q);
            nt::cong_mod(ra as int, q);
            nt::cong_mod(rb as int, q);
            nt::cong_minus(sb as int, rb as int, sa as int, ra as int, q);
            nt::cong_trans(diff as int, sb - sa, rb - ra, q);
            nt::cong_trans(pa * f, diff as int, rb - ra, q);
            nt::cong_refl(ra as int, q);
            nt::cong_plus(ra as int, ra as int, pa * f, rb - ra, q);
        }
    }
    x
}

/// Modulo coprime `pa` and `pb`, representing `x` is having its two residues.
pub proof fn lemma_lift_is_fraction(
    n: int,
    d: int,
    x: int,
    ra: int,
    rb: int,
    pa: int,
    pb: int,
    inv: int,
    bound: int,
)
    requires
        pa > 1,
        pb > 1,
        nt::cong(inv * pa, 1, pb),
        nt::cong(x, ra, pa),
        nt::cong(x, rb, pb),
    ensures
        fraction::is_fraction(n, d, x, pa * pb, bound) <==> is_lift(
            n,
            d,
            ra,
            rb,
            pa,
            pb,
            bound,
        ),
{
    nt::cong_scale(d, x, ra, pa);
    nt::cong_scale(d, x, rb, pb);
    assert(d * x == x * d && d * ra == ra * d && d * rb == rb * d) by (nonlinear_arith);
    if fraction::is_fraction(n, d, x, pa * pb, bound) {
        nt::cong_coarsen(n, x * d, pa, pb);
        assert(pa * pb == pb * pa) by (nonlinear_arith);
        nt::cong_coarsen(n, x * d, pb, pa);
        nt::cong_trans(n, x * d, ra * d, pa);
        nt::cong_trans(n, x * d, rb * d, pb);
    }
    if is_lift(n, d, ra, rb, pa, pb, bound) {
        nt::cong_sym(x * d, ra * d, pa);
        nt::cong_sym(x * d, rb * d, pb);
        nt::cong_trans(n, ra * d, x * d, pa);
        nt::cong_trans(n, rb * d, x * d, pb);
        nt::coprime_product_divides(n - x * d, pa, pb, inv);
    }
}

/// Lifts one pair of basis vectors.
fn lift_vector(
    k: usize,
    va: &SparseVec,
    vb: &SparseVec,
    pa: u64,
    pb: u64,
    inv: u64,
    bound: u128,
) -> (res: Result<Vec<(u32, i128)>, LiftError>)
    requires
        1 < pa < 0x8000_0000_0000_0000,
        1 < pb < 0x8000_0000_0000_0000,
        is_bound(bound as int, pa * pb),
        profile::is_sparse(va.idx@, va.val@, 0x1_0000_0000, pa as int),
        profile::is_sparse(vb.idx@, vb.val@, 0x1_0000_0000, pb as int),
    ensures
        res matches Err(e) ==> e matches LiftError::Capacity { vector, coord } && vector == k && (
        nt::cong(inv * pa, 1, pb as int) ==> is_refused(
            *va,
            *vb,
            pa as int,
            pb as int,
            bound as int,
            coord,
        )),
        res matches Ok(out) ==> (nt::cong(inv * pa, 1, pb as int) ==> is_lifted(
            *va,
            *vb,
            pa as int,
            pb as int,
            bound as int,
            out@,
        )),
{
    let ghost good: bool = nt::cong(inv * pa, 1, pb as int);
    let ghost ai: int = pa as int;
    let ghost bi: int = pb as int;
    let ghost bd: int = bound as int;
    proof {
        super::arith::lemma_wide_product(pa, pb);
        assert(0 < pa * pb < 0x4000_0000_0000_0000_0000_0000_0000_0000) by (nonlinear_arith)
            requires
                2 <= pa < 0x8000_0000_0000_0000,
                2 <= pb < 0x8000_0000_0000_0000,
        ;
        assert(pa * pb > 2) by (nonlinear_arith)
            requires
                2 <= pa,
                2 <= pb,
        ;
    }
    let m: u128 = pa as u128 * pb as u128;
    let s: Vec<(u32, u64, u64)> = union_residues(va, vb);
    let mut rat: Vec<(u32, i128, u128)> = Vec::new();
    let mut i: usize = 0;
    while i < s.len()
        invariant
            i <= s@.len(),
            good == nt::cong(inv * pa, 1, bi),
            ai == pa as int,
            bi == pb as int,
            bd == bound as int,
            1 < pa < 0x8000_0000_0000_0000,
            1 < pb < 0x8000_0000_0000_0000,
            is_bound(bd, pa * pb),
            m == pa * pb,
            2 < m <= i128::MAX,
            profile::is_sparse(va.idx@, va.val@, 0x1_0000_0000, ai),
            is_union(*va, *vb, s@),
            rat@.len() == i,
            clearing::proper(rat@),
            good ==> lifts(s@, rat@, i as int, ai, bi, bd),
        decreases s@.len() - i,
    {
        let (c, ra, rb): (u32, u64, u64) = s[i];
        proof {
            assert(is_residues(*va, *vb, s@[i as int]));
            profile::lemma_coef_range(va.idx@, va.val@, 0x1_0000_0000, ai, c as int);
        }
        let x: u128 = combine(ra, rb, pa, pb, inv);
        let found: Option<(i128, u128)> = ratrec(x, m, bound);
        proof {
            if good {
                assert forall|n: int, d: int| #[trigger] is_lift(
                    n,
                    d,
                    ra as int,
                    rb as int,
                    ai,
                    bi,
                    bd,
                ) <==> fraction::is_fraction(n, d, x as int, m as int, bd) by {
                    lemma_lift_is_fraction(
                        n,
                        d,
                        x as int,
                        ra as int,
                        rb as int,
                        ai,
                        bi,
                        inv as int,
                        bd,
                    );
                }
                assert(2 * (bound * bound) <= m) by {
                    assert(bd * bd <= m as int / 2);
                }
            }
        }
        match found {
            None => {
                proof {
                    if good {
                        assert(has_no_lift(ra as int, rb as int, ai, bi, bd)) by {
                            assert forall|n: int, d: int|
                                !#[trigger] is_lift(n, d, ra as int, rb as int, ai, bi, bd) by {
                                assert(!fraction::is_fraction(n, d, x as int, m as int, bd));
                            }
                        }
                        assert(lifts(s@, rat@, i as int, ai, bi, bd));
                    }
                }
                return Err(LiftError::Capacity { vector: k, coord: c });
            },
            Some((n, d)) => {
                let ghost rat1 = rat@;
                rat.push((c, n, d));
                proof {
                    assert forall|j: int| 0 <= j < rat@.len() implies (#[trigger] rat@[j]).2
                        > 0 by {
                        if j < rat1.len() {
                            assert(rat1[j].2 > 0);
                        }
                    }
                    if good {
                        assert(is_lift(n as int, d as int, ra as int, rb as int, ai, bi, bd));
                        assert forall|j: int| 0 <= j < i + 1 implies (#[trigger] rat@[j]).0
                            == s@[j].0 && is_lift(
                            rat@[j].1 as int,
                            rat@[j].2 as int,
                            s@[j].1 as int,
                            s@[j].2 as int,
                            ai,
                            bi,
                            bd,
                        ) by {
                            if j < i {
                                assert(rat@[j] == rat1[j]);
                            }
                        }
                    }
                }
            },
        }
        i += 1;
    }
    let res: Result<Vec<(u32, i128)>, LiftError> = clear_to_primitive(k, &rat);
    proof {
        if good {
            match &res {
                Ok(out) => {
                    assert(is_union(*va, *vb, s@));
                    assert(clearing::is_primitive(rat@, out@));
                },
                Err(e) => {
                    let j: int = choose|j: int|
                        #[trigger] clearing::clearing_fails_at(rat@, j) && *e == (
                        LiftError::Capacity { vector: k, coord: rat@[j].0 });
                    assert(rat@[j].0 == s@[j].0);
                    assert(is_union(*va, *vb, s@));
                },
            }
        }
    }
    res
}

/// Are two ascending lists of columns the same?
fn same_columns(a: &Vec<u32>, b: &Vec<u32>) -> (res: bool)
    ensures
        res <==> a@ == b@,
{
    if a.len() != b.len() {
        return false;
    }
    let mut i: usize = 0;
    while i < a.len()
        invariant
            i <= a@.len(),
            a@.len() == b@.len(),
            forall|j: int| 0 <= j < i ==> #[trigger] a@[j] == b@[j],
        decreases a@.len() - i,
    {
        if a[i] != b[i] {
            return false;
        }
        i += 1;
    }
    assert(a@ =~= b@);
    true
}

/// Lifts two agreeing bundles to primitive integer vectors: coordinate by coordinate
/// the fraction with the two residues, then for each vector the primitive integer form.
pub fn crt2_ratrec(a: &ModpNullspace, b: &ModpNullspace) -> (res: Result<
    Vec<Vec<(u32, i128)>>,
    LiftError,
>)
    requires
        is_bundle(*a),
        is_bundle(*b),
    ensures
        a.prime == b.prime ==> res == Err::<Vec<Vec<(u32, i128)>>, LiftError>(
            LiftError::SamePrime { prime: a.prime },
        ),
        a.prime != b.prime && !agree(*a, *b) ==> res == Err::<Vec<Vec<(u32, i128)>>, LiftError>(
            LiftError::ProfileMismatch { rank_a: a.rank, rank_b: b.rank },
        ),
        a.prime != b.prime && agree(*a, *b) ==> match res {
            Ok(out) => out@.len() == pairs(*a, *b),
            Err(e) => e matches LiftError::Capacity { vector, coord } && vector < pairs(*a, *b),
        },
        nt::is_prime(a.prime as int) && nt::is_prime(b.prime as int) && a.prime != b.prime
            && agree(*a, *b) ==> forall|bound: int|
            #[trigger] is_bound(bound, modulus(*a, *b)) ==> {
                &&& res is Ok <==> forall|k: int|
                    0 <= k < pairs(*a, *b) ==> #[trigger] can_lift(
                        a.basis@[k],
                        b.basis@[k],
                        a.prime as int,
                        b.prime as int,
                        bound,
                    )
                &&& res matches Ok(out) ==> forall|k: int|
                    0 <= k < out@.len() ==> is_lifted(
                        a.basis@[k],
                        b.basis@[k],
                        a.prime as int,
                        b.prime as int,
                        bound,
                        (#[trigger] out@[k])@,
                    )
                &&& res matches Err(LiftError::Capacity { vector, coord }) ==> is_refused(
                    a.basis@[vector as int],
                    b.basis@[vector as int],
                    a.prime as int,
                    b.prime as int,
                    bound,
                    coord,
                ) && forall|k: int|
                    0 <= k < vector ==> #[trigger] can_lift(
                        a.basis@[k],
                        b.basis@[k],
                        a.prime as int,
                        b.prime as int,
                        bound,
                    )
            },
{
    if a.prime == b.prime {
        return Err(LiftError::SamePrime { prime: a.prime });
    }
    if a.rank != b.rank || !same_columns(&a.pivot_cols, &b.pivot_cols) {
        return Err(LiftError::ProfileMismatch { rank_a: a.rank, rank_b: b.rank });
    }
    let pa: u64 = a.prime;
    let pb: u64 = b.prime;
    proof {
        super::arith::lemma_wide_product(pa, pb);
    }
    let m: u128 = pa as u128 * pb as u128;
    let bound: u128 = isqrt_u128(m / 2);
    let inv: u64 = invmod(pa % pb, pb);
    let ghost bd: int = bound as int;
    let ghost primes: bool = nt::is_prime(pa as int) && nt::is_prime(pb as int);
    proof {
        if primes {
            lemma_inverse(pa as int, pb as int, inv as int);
        }
        assert forall|other: int| #[trigger] is_bound(
            other,
            modulus(*a, *b),
        ) implies other == bd by {
            lemma_bound_unique(bd, other, pa * pb);
        }
    }
    let mut out: Vec<Vec<(u32, i128)>> = Vec::new();
    let mut k: usize = 0;
    while k < a.basis.len() && k < b.basis.len()
        invariant
            k <= a.basis@.len(),
            k <= b.basis@.len(),
            is_bundle(*a),
            is_bundle(*b),
            pa == a.prime,
            pb == b.prime,
            pa != pb,
            bd == bound as int,
            a.rank == b.rank,
            a.pivot_cols@ == b.pivot_cols@,
            is_bound(bd, pa * pb),
            forall|other: int| #[trigger] is_bound(other, modulus(*a, *b)) ==> other == bd,
            primes == (nt::is_prime(pa as int) && nt::is_prime(pb as int)),
            primes ==> nt::cong(inv * pa, 1, pb as int),
            out@.len() == k,
            primes ==> forall|i: int|
                0 <= i < k ==> is_lifted(
                    a.basis@[i],
                    b.basis@[i],
                    pa as int,
                    pb as int,
                    bd,
                    (#[trigger] out@[i])@,
                ),
        decreases a.basis@.len() - k,
    {
        proof {
            assert(profile::is_sparse(
                a.basis@[k as int].idx@,
                a.basis@[k as int].val@,
                0x1_0000_0000,
                pa as int,
            ));
            assert(profile::is_sparse(
                b.basis@[k as int].idx@,
                b.basis@[k as int].val@,
                0x1_0000_0000,
                pb as int,
            ));
        }
        match lift_vector(k, &a.basis[k], &b.basis[k], pa, pb, inv, bound) {
            Err(e) => {
                proof {
                    if primes {
                        assert forall|i: int| 0 <= i < k implies #[trigger] can_lift(
                            a.basis@[i],
                            b.basis@[i],
                            pa as int,
                            pb as int,
                            bd,
                        ) by {
                            assert(is_lifted(
                                a.basis@[i],
                                b.basis@[i],
                                pa as int,
                                pb as int,
                                bd,
                                out@[i]@,
                            ));
                        }
                        if let LiftError::Capacity { vector, coord } = e {
                            super::lifted::lemma_refused_or_lifted(
                                a.basis@[k as int],
                                b.basis@[k as int],
                                pa as int,
                                pb as int,
                                bd,
                                coord,
                            );
                        }
                    }
                }
                return Err(e);
            },
            Ok(v) => {
                out.push(v);
            },
        }
        k += 1;
    }
    proof {
        if primes {
            assert forall|i: int| 0 <= i < pairs(*a, *b) implies #[trigger] can_lift(
                a.basis@[i],
                b.basis@[i],
                pa as int,
                pb as int,
                bd,
            ) by {
                assert(is_lifted(
                    a.basis@[i],
                    b.basis@[i],
                    pa as int,
                    pb as int,
                    bd,
                    out@[i]@,
                ));
            }
        }
    }
    Ok(out)
}

/// The pair of vectors lifts to some integer vector.
pub open spec fn can_lift(va: SparseVec, vb: SparseVec, pa: int, pb: int, bound: int) -> bool {
    exists|out: Seq<(u32, i128)>| #[trigger] is_lifted(va, vb, pa, pb, bound, out)
}

/// Distinct primes are coprime.
proof fn lemma_inverse(pa: int, pb: int, inv: int)
    requires
        nt::is_prime(pa),
        nt::is_prime(pb),
        pa != pb,
        !nt::cong(pa % pb, 0, pb) ==> nt::cong(inv * (pa % pb), 1, pb),
    ensures
        nt::cong(inv * pa, 1, pb),
{
    nt::cong_mod(pa, pb);
    if nt::cong(pa % pb, 0, pb) {
        nt::cong_trans(pa, pa % pb, 0, pb);
        assert(nt::divides(pb, pa));
        nt::divides_le(pb, pa);
        assert(!nt::divides(pb, pa));
    }
    nt::cong_scale(inv, pa, pa % pb, pb);
    nt::cong_trans(inv * pa, inv * (pa % pb), 1, pb);
}

/// A modulus has one reconstruction bound.
proof fn lemma_bound_unique(b1: int, b2: int, m: int)
    requires
        is_bound(b1, m),
        is_bound(b2, m),
    ensures
        b1 == b2,
{
    if b1 < b2 {
        assert((b1 + 1) * (b1 + 1) <= b2 * b2) by (nonlinear_arith)
            requires
                0 <= b1 + 1 <= b2,
        ;
    } else if b2 < b1 {
        assert((b2 + 1) * (b2 + 1) <= b1 * b1) by (nonlinear_arith)
            requires
                0 <= b2 + 1 <= b1,
        ;
    }
}

} // verus!
