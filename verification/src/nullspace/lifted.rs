//! What every lifted vector is: primitive, positive where it begins, a multiple of the
//! residues of both primes, and the only one.

use super::clearing;
use super::fraction;
use super::lift;
use super::profile;
use super::recover;
use super::{ModpNullspace, SparseVec};
use crate::linalg;
use crate::nt;
use vstd::prelude::*;

verus! {

/// The coordinates rise strictly, and no value is zero.
pub open spec fn is_sparse_vector(out: Seq<(u32, i128)>) -> bool {
    &&& forall|i: int, j: int|
        0 <= i < j < out.len() ==> (#[trigger] out[i]).0 < (#[trigger] out[j]).0
    &&& forall|i: int| 0 <= i < out.len() ==> (#[trigger] out[i]).1 != 0
}

/// `g` divides every value.
pub open spec fn divides_values(g: int, out: Seq<(u32, i128)>) -> bool {
    forall|i: int| 0 <= i < out.len() ==> nt::divides(g, (#[trigger] out[i]).1 as int)
}

/// The values have no common divisor above one.
pub open spec fn is_coprime(out: Seq<(u32, i128)>) -> bool {
    forall|g: int| g > 1 ==> !#[trigger] divides_values(g, out)
}

/// Modulo `p`, and up to column `n`, `out` is `v` times the residues `va`.
pub open spec fn is_multiple(
    out: Seq<(u32, i128)>,
    v: int,
    va: SparseVec,
    n: int,
    p: int,
) -> bool {
    forall|c: int|
        0 <= c < n ==> nt::cong(
            #[trigger] recover::value(out, c),
            v * profile::coef(va.idx@, va.val@, c),
            p,
        )
}

/// What the lift has found for one free column: the fractions `rat` of the residues `s`,
/// both residues being one at `f`.
spec fn is_found(
    va: SparseVec,
    vb: SparseVec,
    pa: int,
    pb: int,
    bound: int,
    f: int,
    s: Seq<(u32, u64, u64)>,
    rat: Seq<(u32, i128, u128)>,
) -> bool {
    &&& nt::is_prime(pa)
    &&& nt::is_prime(pb)
    &&& pa != pb
    &&& lift::is_bound(bound, pa * pb)
    &&& profile::is_sparse(va.idx@, va.val@, 0x1_0000_0000, pa)
    &&& profile::is_sparse(vb.idx@, vb.val@, 0x1_0000_0000, pb)
    &&& profile::coef(va.idx@, va.val@, f) == 1
    &&& profile::coef(vb.idx@, vb.val@, f) == 1
    &&& lift::is_union(va, vb, s)
    &&& lift::lifts(s, rat, s.len() as int, pa, pb, bound)
}

/// The fraction of the free column is one.
proof fn lemma_one(
    va: SparseVec,
    vb: SparseVec,
    pa: int,
    pb: int,
    bound: int,
    f: int,
    s: Seq<(u32, u64, u64)>,
    rat: Seq<(u32, i128, u128)>,
) -> (i: int)
    requires
        is_found(va, vb, pa, pb, bound, f, s, rat),
    ensures
        0 <= i < rat.len(),
        rat[i].0 == f,
        rat[i].1 == 1,
        rat[i].2 == 1,
{
    assert(profile::is_pivot(va.idx@, f));
    let i: int = choose|i: int| 0 <= i < s.len() && (#[trigger] s[i]).0 == f;
    assert(s[i].0 == f);
    assert(lift::is_residues(va, vb, s[i]));
    assert(rat[i].0 == s[i].0);
    let n: int = rat[i].1 as int;
    let d: int = rat[i].2 as int;
    assert(lift::is_lift(n, d, 1, 1, pa, pb, bound));
    assert(bound >= 1);
    assert(nt::gcd(1, 1) == 1) by {
        reveal_with_fuel(nt::gcd, 3);
    }
    assert(1 * 1 == 1int);
    nt::cong_refl(1, pa);
    nt::cong_refl(1, pb);
    assert(lift::is_lift(1, 1, 1, 1, pa, pb, bound));
    recover::lemma_lift_unique(n, d, 1, 1, 1, 1, pa, pb, bound);
    i
}

/// No fraction is zero.
proof fn lemma_nonzero(
    va: SparseVec,
    vb: SparseVec,
    pa: int,
    pb: int,
    bound: int,
    f: int,
    s: Seq<(u32, u64, u64)>,
    rat: Seq<(u32, i128, u128)>,
    i: int,
)
    requires
        is_found(va, vb, pa, pb, bound, f, s, rat),
        0 <= i < rat.len(),
    ensures
        rat[i].1 != 0,
        rat[i].2 > 0,
{
    let c: int = s[i].0 as int;
    let d: int = rat[i].2 as int;
    assert(lift::is_residues(va, vb, s[i]));
    assert(rat[i].0 == s[i].0);
    if rat[i].1 == 0 {
        assert(d == 1) by {
            reveal_with_fuel(nt::gcd, 3);
            assert(nt::gcd(0, d as nat) == 1);
        }
        let ra: int = s[i].1 as int;
        let rb: int = s[i].2 as int;
        assert(ra * 1 == ra && rb * 1 == rb) by (nonlinear_arith);
        nt::cong_sym(0, ra, pa);
        nt::cong_sym(0, rb, pb);
        if profile::is_pivot(va.idx@, c) {
            let k: int = choose|k: int| 0 <= k < va.idx@.len() && #[trigger] va.idx@[k] == c;
            profile::lemma_coef_listed(va.idx@, va.val@, k);
            assert(0 < va.val@[k] < pa);
            nt::cong_small(ra, 0, pa);
        } else {
            let k: int = choose|k: int| 0 <= k < vb.idx@.len() && #[trigger] vb.idx@[k] == c;
            profile::lemma_coef_listed(vb.idx@, vb.val@, k);
            assert(0 < vb.val@[k] < pb);
            nt::cong_small(rb, 0, pb);
        }
    }
}

/// A coordinate over the common denominator, times its own denominator.
proof fn lemma_scaled_back(rat: Seq<(u32, i128, u128)>, i: int)
    requires
        clearing::proper(rat),
        0 <= i < rat.len(),
    ensures
        clearing::scaled(rat, i) * rat[i].2 == rat[i].1 * clearing::den_lcm(
            rat,
            rat.len() as int,
        ),
        clearing::den_lcm(rat, rat.len() as int) >= 1,
{
    clearing::lemma_den_lcm(rat, rat.len() as int);
    let big: int = clearing::den_lcm(rat, rat.len() as int) as int;
    let d: int = rat[i].2 as int;
    let nn: int = rat[i].1 as int;
    assert(rat[i].2 > 0);
    assert(nt::divides(d, big));
    let q: int = nt::divides_quotient(d, big);
    vstd::arithmetic::div_mod::lemma_div_multiples_vanish(q, d);
    assert(d * q == q * d) by (nonlinear_arith);
    assert((nn * q) * d == nn * (q * d)) by (nonlinear_arith);
}

/// Where one of the fractions is one, the coordinates over the common denominator have no
/// common divisor.
proof fn lemma_content_one(
    va: SparseVec,
    vb: SparseVec,
    pa: int,
    pb: int,
    bound: int,
    f: int,
    s: Seq<(u32, u64, u64)>,
    rat: Seq<(u32, i128, u128)>,
)
    requires
        is_found(va, vb, pa, pb, bound, f, s, rat),
    ensures
        clearing::proper(rat),
        clearing::content(rat, rat.len() as int) == 1,
{
    let len: int = rat.len() as int;
    assert forall|i: int| 0 <= i < rat.len() implies (#[trigger] rat[i]).2 > 0 by {
        lemma_nonzero(va, vb, pa, pb, bound, f, s, rat, i);
    }
    let fi: int = lemma_one(va, vb, pa, pb, bound, f, s, rat);
    lemma_scaled_back(rat, fi);
    let big: int = clearing::den_lcm(rat, len) as int;
    assert(clearing::scaled(rat, fi) == big);
    clearing::lemma_content(rat, len);
    let g: int = clearing::content(rat, len) as int;
    assert(g > 0);
    assert(nt::divides(g, clearing::scaled(rat, fi)));
    let small: int = nt::divides_quotient(g, big);
    assert(small >= 1) by (nonlinear_arith)
        requires
            big == small * g,
            big >= 1,
            g > 0,
    ;
    assert forall|i: int| 0 <= i < len implies nt::divides((#[trigger] rat[i]).2 as int, small) by {
        let v: int = clearing::scaled(rat, i);
        let nn: int = rat[i].1 as int;
        let d: int = rat[i].2 as int;
        assert(nt::divides(g, clearing::scaled(rat, i)));
        let t: int = nt::divides_quotient(g, v);
        lemma_scaled_back(rat, i);
        assert(rat[i].2 > 0);
        assert(nn * small == t * d) by (nonlinear_arith)
            requires
                v == t * g,
                big == small * g,
                v * d == nn * big,
                g > 0,
        {
            assert((t * d) * g == (t * g) * d);
            assert((nn * small) * g == nn * (small * g));
        }
        assert(rat[i].0 == s[i].0);
        fraction::lemma_den_divides(nn, d, t, small);
    }
    recover::lemma_den_lcm_divides(rat, len, small);
    nt::divides_le(big, small);
    assert(g == 1) by (nonlinear_arith)
        requires
            big == small * g,
            big <= small,
            small >= 1,
            g > 0,
    ;
}

/// A coordinate over the common denominator has, modulo `p`, the residue of its fraction
/// times the common denominator.
proof fn lemma_scaled_residue(rat: Seq<(u32, i128, u128)>, i: int, r: int, p: int)
    requires
        p > 1,
        clearing::proper(rat),
        0 <= i < rat.len(),
        nt::cong(rat[i].1 as int, r * rat[i].2, p),
    ensures
        nt::cong(
            clearing::scaled(rat, i),
            clearing::den_lcm(rat, rat.len() as int) * r,
            p,
        ),
{
    clearing::lemma_den_lcm(rat, rat.len() as int);
    let big: int = clearing::den_lcm(rat, rat.len() as int) as int;
    let d: int = rat[i].2 as int;
    let nn: int = rat[i].1 as int;
    assert(rat[i].2 > 0);
    assert(nt::divides(d, big));
    let q: int = nt::divides_quotient(d, big);
    vstd::arithmetic::div_mod::lemma_div_multiples_vanish(q, d);
    assert(d * q == q * d) by (nonlinear_arith);
    nt::cong_scale(q, nn, r * d, p);
    assert(q * nn == nn * q) by (nonlinear_arith);
    assert(q * (r * d) == (q * d) * r) by (nonlinear_arith);
}

/// A vector that two agreeing primes lift to: its coordinates rise and its values are
/// nonzero, they have no common divisor, the first is positive, and modulo either prime
/// the vector is its value at the free column times the canonical kernel vector.
pub proof fn law_lifted_vector(
    mat: Seq<Seq<int>>,
    n: int,
    a: ModpNullspace,
    b: ModpNullspace,
    k: int,
    bound: int,
    out: Seq<(u32, i128)>,
)
    requires
        nt::is_prime(a.prime as int),
        nt::is_prime(b.prime as int),
        a.prime != b.prime,
        a.pivot_cols@ == b.pivot_cols@,
        0 <= n <= 0x1_0000_0000,
        linalg::shaped(mat, n),
        a.is_nullspace_of(mat, n, a.prime as int),
        b.is_nullspace_of(mat, n, b.prime as int),
        lift::is_bound(bound, lift::modulus(a, b)),
        0 <= k < a.basis@.len(),
        lift::is_lifted(
            a.basis@[k],
            b.basis@[k],
            a.prime as int,
            b.prime as int,
            bound,
            out,
        ),
    ensures
        a.basis@.len() == b.basis@.len(),
        is_sparse_vector(out),
        is_coprime(out),
        out.len() > 0,
        out[0].1 > 0,
        is_multiple(
            out,
            recover::value(out, profile::free_cols(a.pivot_cols@, n)[k]),
            a.basis@[k],
            n,
            a.prime as int,
        ),
        is_multiple(
            out,
            recover::value(out, profile::free_cols(a.pivot_cols@, n)[k]),
            b.basis@[k],
            n,
            b.prime as int,
        ),
{
    let piv: Seq<u32> = a.pivot_cols@;
    let f: int = profile::free_cols(piv, n)[k];
    profile::lemma_free_cols(piv, n);
    let va: SparseVec = a.basis@[k];
    let vb: SparseVec = b.basis@[k];
    let pa: int = a.prime as int;
    let pb: int = b.prime as int;
    assert(profile::expand(va.idx@, va.val@, n)[f] == 1);
    assert(profile::expand(vb.idx@, vb.val@, n)[f] == 1);
    let (s, rat): (Seq<(u32, u64, u64)>, Seq<(u32, i128, u128)>) = choose|
        s: Seq<(u32, u64, u64)>,
        rat: Seq<(u32, i128, u128)>,
    |
        #![trigger lift::is_union(va, vb, s), clearing::is_primitive(rat, out)]
        lift::is_union(va, vb, s) && lift::lifts(s, rat, s.len() as int, pa, pb, bound)
            && clearing::is_primitive(rat, out);
    assert(is_found(va, vb, pa, pb, bound, f, s, rat));
    lemma_vector(va, vb, pa, pb, bound, f, n, s, rat, out);
}

proof fn lemma_vector(
    va: SparseVec,
    vb: SparseVec,
    pa: int,
    pb: int,
    bound: int,
    f: int,
    n: int,
    s: Seq<(u32, u64, u64)>,
    rat: Seq<(u32, i128, u128)>,
    out: Seq<(u32, i128)>,
)
    requires
        is_found(va, vb, pa, pb, bound, f, s, rat),
        0 <= f < n <= 0x1_0000_0000,
        clearing::is_primitive(rat, out),
    ensures
        is_sparse_vector(out),
        is_coprime(out),
        out.len() > 0,
        out[0].1 > 0,
        is_multiple(out, recover::value(out, f), va, n, pa),
        is_multiple(out, recover::value(out, f), vb, n, pb),
{
    let len: int = rat.len() as int;
    lemma_content_one(va, vb, pa, pb, bound, f, s, rat);
    let fi: int = lemma_one(va, vb, pa, pb, bound, f, s, rat);
    let big: int = clearing::den_lcm(rat, len) as int;
    let sg: int = if clearing::leads_negative(rat) {
        -1
    } else {
        1
    };
    assert forall|i: int| 0 <= i < len implies (#[trigger] out[i]).1 == sg * clearing::scaled(
        rat,
        i,
    ) && out[i].1 != 0 && out[i].0 == s[i].0 by {
        recover::lemma_primitive_times_content(rat, i);
        lemma_nonzero(va, vb, pa, pb, bound, f, s, rat, i);
        lemma_scaled_back(rat, i);
        assert(rat[i].0 == s[i].0);
        let v: int = clearing::scaled(rat, i);
        assert(v != 0) by (nonlinear_arith)
            requires
                v * rat[i].2 == rat[i].1 * big,
                rat[i].1 != 0,
                big >= 1,
        ;
        assert(sg * v != 0) by (nonlinear_arith)
            requires
                sg == 1 || sg == -1,
                v != 0,
        ;
    }
    assert forall|i: int, j: int| 0 <= i < j < out.len() implies (#[trigger] out[i]).0 < (
    #[trigger] out[j]).0 by {
        assert(s[i].0 < s[j].0);
    }
    // The first value.
    assert(out[0].1 == sg * clearing::scaled(rat, 0) && out[0].1 != 0);
    assert(clearing::scaled(rat, 0) != 0) by (nonlinear_arith)
        requires
            sg * clearing::scaled(rat, 0) != 0,
    ;
    assert(clearing::leads_at(rat, 0));
    clearing::lemma_lead(rat, 0);
    // No common divisor.
    assert forall|g: int| g > 1 implies !#[trigger] divides_values(g, out) by {
        if divides_values(g, out) {
            assert forall|i: int| 0 <= i < len implies nt::divides(
                g,
                #[trigger] clearing::scaled(rat, i),
            ) by {
                assert(out[i].1 == sg * clearing::scaled(rat, i));
                assert(nt::divides(g, out[i].1 as int));
                let q: int = nt::divides_quotient(g, out[i].1 as int);
                let v: int = clearing::scaled(rat, i);
                assert(v == (sg * q) * g) by (nonlinear_arith)
                    requires
                        sg == 1 || sg == -1,
                        sg * v == q * g,
                ;
                nt::divides_from_quotient(g, v, sg * q);
            }
            recover::lemma_common_content(rat, len, g);
            nt::divides_le(g, 1);
        }
    }
    // The residues.
    lemma_scaled_back(rat, fi);
    assert(clearing::scaled(rat, fi) == big);
    recover::lemma_value_listed(out, fi);
    assert(out[fi].0 == rat[fi].0);
    let w: int = recover::value(out, f);
    assert(w == sg * big) by {
        assert(out[fi].1 == sg * clearing::scaled(rat, fi));
    }
    assert forall|c: int| 0 <= c < n implies nt::cong(
        #[trigger] recover::value(out, c),
        w * profile::coef(va.idx@, va.val@, c),
        pa,
    ) && nt::cong(recover::value(out, c), w * profile::coef(vb.idx@, vb.val@, c), pb) by {
        if profile::is_pivot(va.idx@, c) || profile::is_pivot(vb.idx@, c) {
            let i: int = choose|i: int| 0 <= i < s.len() && (#[trigger] s[i]).0 == c;
            assert(s[i].0 == c);
            assert(lift::is_residues(va, vb, s[i]));
            assert(out[i].0 == s[i].0);
            recover::lemma_value_listed(out, i);
            let v: int = clearing::scaled(rat, i);
            assert(out[i].1 == sg * clearing::scaled(rat, i));
            assert(rat[i].0 == s[i].0);
            let ra: int = s[i].1 as int;
            let rb: int = s[i].2 as int;
            lemma_scaled_residue(rat, i, ra, pa);
            lemma_scaled_residue(rat, i, rb, pb);
            nt::cong_scale(sg, v, big * ra, pa);
            nt::cong_scale(sg, v, big * rb, pb);
            assert(sg * (big * ra) == (sg * big) * ra) by (nonlinear_arith);
            assert(sg * (big * rb) == (sg * big) * rb) by (nonlinear_arith);
        } else {
            assert forall|i: int| 0 <= i < out.len() implies (#[trigger] out[i]).0 != c as u32 by {
                assert(out[i].0 == s[i].0);
                assert(lift::is_residues(va, vb, s[i]));
            }
            recover::lemma_value_unlisted(out, c as u32);
            assert(w * 0 == 0) by (nonlinear_arith);
            nt::cong_refl(0, pa);
            nt::cong_refl(0, pb);
        }
    }
}

/// Two vectors have one union of residues.
proof fn lemma_one_union(
    va: SparseVec,
    vb: SparseVec,
    s: Seq<(u32, u64, u64)>,
    t: Seq<(u32, u64, u64)>,
)
    requires
        lift::is_union(va, vb, s),
        lift::is_union(va, vb, t),
    ensures
        s == t,
{
    let a: Seq<u32> = Seq::new(s.len(), |i: int| s[i].0);
    let b: Seq<u32> = Seq::new(t.len(), |i: int| t[i].0);
    assert forall|c: int| profile::is_pivot(a, c) <==> profile::is_pivot(b, c) by {
        if profile::is_pivot(a, c) {
            let i: int = choose|i: int| 0 <= i < a.len() && #[trigger] a[i] == c;
            assert(lift::is_residues(va, vb, s[i]));
            let j: int = choose|j: int| 0 <= j < t.len() && (#[trigger] t[j]).0 == c;
            assert(b[j] == c);
        }
        if profile::is_pivot(b, c) {
            let i: int = choose|i: int| 0 <= i < b.len() && #[trigger] b[i] == c;
            assert(lift::is_residues(va, vb, t[i]));
            let j: int = choose|j: int| 0 <= j < s.len() && (#[trigger] s[j]).0 == c;
            assert(a[j] == c);
        }
    }
    assert forall|i: int, j: int| 0 <= i < j < a.len() implies a[i] < a[j] by {
        assert(s[i].0 < s[j].0);
    }
    assert forall|i: int, j: int| 0 <= i < j < b.len() implies b[i] < b[j] by {
        assert(t[i].0 < t[j].0);
    }
    profile::lemma_ascending_unique(a, b);
    assert forall|i: int| 0 <= i < s.len() implies s[i] == t[i] by {
        assert(a[i] == b[i]);
        assert(lift::is_residues(va, vb, s[i]));
        assert(lift::is_residues(va, vb, t[i]));
    }
    assert(s =~= t);
}

/// Residues have one list of fractions.
proof fn lemma_one_list(
    s: Seq<(u32, u64, u64)>,
    x: Seq<(u32, i128, u128)>,
    y: Seq<(u32, i128, u128)>,
    k: int,
    l: int,
    pa: int,
    pb: int,
    bound: int,
)
    requires
        nt::is_prime(pa),
        nt::is_prime(pb),
        pa != pb,
        lift::is_bound(bound, pa * pb),
        lift::lifts(s, x, k, pa, pb, bound),
        lift::lifts(s, y, l, pa, pb, bound),
        0 <= k <= l,
    ensures
        x == y.take(k),
{
    assert forall|i: int| 0 <= i < k implies x[i] == y[i] by {
        assert(x[i].0 == s[i].0 && y[i].0 == s[i].0);
        recover::lemma_lift_unique(
            x[i].1 as int,
            x[i].2 as int,
            y[i].1 as int,
            y[i].2 as int,
            s[i].1 as int,
            s[i].2 as int,
            pa,
            pb,
            bound,
        );
    }
    assert(x =~= y.take(k));
}

/// What is refused is not lifted.
pub(crate) proof fn lemma_refused_or_lifted(
    va: SparseVec,
    vb: SparseVec,
    pa: int,
    pb: int,
    bound: int,
    coord: u32,
)
    requires
        nt::is_prime(pa),
        nt::is_prime(pb),
        pa != pb,
        lift::is_bound(bound, pa * pb),
        lift::is_refused(va, vb, pa, pb, bound, coord),
    ensures
        !lift::can_lift(va, vb, pa, pb, bound),
{
    if lift::can_lift(va, vb, pa, pb, bound) {
        let out: Seq<(u32, i128)> = choose|out: Seq<(u32, i128)>| #[trigger]
            lift::is_lifted(va, vb, pa, pb, bound, out);
        let (t, y): (Seq<(u32, u64, u64)>, Seq<(u32, i128, u128)>) = found(
            va,
            vb,
            pa,
            pb,
            bound,
            out,
        );
        let (s, x, i): (Seq<(u32, u64, u64)>, Seq<(u32, i128, u128)>, int) = stopped(
            va,
            vb,
            pa,
            pb,
            bound,
            coord,
        );
        lemma_one_union(va, vb, s, t);
        let n: int = s.len() as int;
        if lift::lifts(s, x, n, pa, pb, bound) && clearing::clearing_fails_at(x, i) {
            lemma_one_list(s, x, y, n, n, pa, pb, bound);
            assert(y.take(n) =~= y);
        } else {
            assert(y[i].0 == s[i].0);
            assert(lift::is_lift(
                y[i].1 as int,
                y[i].2 as int,
                s[i].1 as int,
                s[i].2 as int,
                pa,
                pb,
                bound,
            ));
        }
    }
}

/// The residues and the fractions behind a lifted vector.
proof fn found(
    va: SparseVec,
    vb: SparseVec,
    pa: int,
    pb: int,
    bound: int,
    out: Seq<(u32, i128)>,
) -> (r: (Seq<(u32, u64, u64)>, Seq<(u32, i128, u128)>))
    requires
        lift::is_lifted(va, vb, pa, pb, bound, out),
    ensures
        lift::is_union(va, vb, r.0),
        lift::lifts(r.0, r.1, r.0.len() as int, pa, pb, bound),
        clearing::is_primitive(r.1, out),
{
    choose|s: Seq<(u32, u64, u64)>, rat: Seq<(u32, i128, u128)>|
        #![trigger lift::is_union(va, vb, s), clearing::is_primitive(rat, out)]
        lift::is_union(va, vb, s) && lift::lifts(s, rat, s.len() as int, pa, pb, bound)
            && clearing::is_primitive(rat, out)
}

/// The residues, the fractions and the place behind a refusal.
proof fn stopped(
    va: SparseVec,
    vb: SparseVec,
    pa: int,
    pb: int,
    bound: int,
    coord: u32,
) -> (r: (Seq<(u32, u64, u64)>, Seq<(u32, i128, u128)>, int))
    requires
        lift::is_refused(va, vb, pa, pb, bound, coord),
    ensures
        lift::is_union(va, vb, r.0),
        0 <= r.2 < r.0.len(),
        coord == r.0[r.2].0,
        (lift::lifts(r.0, r.1, r.2, pa, pb, bound) && lift::has_no_lift(
            r.0[r.2].1 as int,
            r.0[r.2].2 as int,
            pa,
            pb,
            bound,
        )) || (lift::lifts(r.0, r.1, r.0.len() as int, pa, pb, bound)
            && clearing::clearing_fails_at(r.1, r.2)),
{
    choose|s: Seq<(u32, u64, u64)>, rat: Seq<(u32, i128, u128)>, i: int|
        #![trigger lift::is_union(va, vb, s), lift::lifts(s, rat, i, pa, pb, bound)]
        #![trigger lift::is_union(va, vb, s), clearing::clearing_fails_at(rat, i)]
        lift::is_union(va, vb, s) && 0 <= i < s.len() && coord == s[i].0 && {
            ||| lift::lifts(s, rat, i, pa, pb, bound) && lift::has_no_lift(
                s[i].1 as int,
                s[i].2 as int,
                pa,
                pb,
                bound,
            )
            ||| lift::lifts(s, rat, s.len() as int, pa, pb, bound)
                && clearing::clearing_fails_at(rat, i)
        }
}

/// The residues of two primes have one outcome: they are not both lifted and refused, they
/// lift to at most one vector, and a refusal names one coordinate.
pub proof fn law_lift_outcome_unique(va: SparseVec, vb: SparseVec, pa: int, pb: int, bound: int)
    requires
        nt::is_prime(pa),
        nt::is_prime(pb),
        pa != pb,
        lift::is_bound(bound, pa * pb),
    ensures
        forall|x: Seq<(u32, i128)>, y: Seq<(u32, i128)>| #[trigger]
            lift::is_lifted(va, vb, pa, pb, bound, x) && #[trigger] lift::is_lifted(
                va,
                vb,
                pa,
                pb,
                bound,
                y,
            ) ==> x == y,
        forall|c: u32, d: u32| #[trigger]
            lift::is_refused(va, vb, pa, pb, bound, c) && #[trigger] lift::is_refused(
                va,
                vb,
                pa,
                pb,
                bound,
                d,
            ) ==> c == d,
        forall|c: u32, x: Seq<(u32, i128)>| #[trigger]
            lift::is_refused(va, vb, pa, pb, bound, c) ==> !#[trigger] lift::is_lifted(
                va,
                vb,
                pa,
                pb,
                bound,
                x,
            ),
{
    assert forall|x: Seq<(u32, i128)>, y: Seq<(u32, i128)>| #[trigger]
        lift::is_lifted(va, vb, pa, pb, bound, x) && #[trigger] lift::is_lifted(
            va,
            vb,
            pa,
            pb,
            bound,
            y,
        ) implies x == y by {
        let (s, p) = found(va, vb, pa, pb, bound, x);
        let (t, q) = found(va, vb, pa, pb, bound, y);
        lemma_one_union(va, vb, s, t);
        let n: int = s.len() as int;
        lemma_one_list(s, p, q, n, n, pa, pb, bound);
        assert(q.take(n) =~= q);
        assert forall|i: int| 0 <= i < x.len() implies x[i] == y[i] by {
            assert(x[i].0 == p[i].0 && y[i].0 == p[i].0);
        }
        assert(x =~= y);
    }
    assert forall|c: u32, d: u32| #[trigger]
        lift::is_refused(va, vb, pa, pb, bound, c) && #[trigger] lift::is_refused(
            va,
            vb,
            pa,
            pb,
            bound,
            d,
        ) implies c == d by {
        lemma_one_refusal(va, vb, pa, pb, bound, c, d);
    }
    assert forall|c: u32, x: Seq<(u32, i128)>| #[trigger]
        lift::is_refused(va, vb, pa, pb, bound, c) implies !#[trigger] lift::is_lifted(
        va,
        vb,
        pa,
        pb,
        bound,
        x,
    ) by {
        lemma_refused_or_lifted(va, vb, pa, pb, bound, c);
    }
}

proof fn lemma_one_refusal(
    va: SparseVec,
    vb: SparseVec,
    pa: int,
    pb: int,
    bound: int,
    c: u32,
    d: u32,
)
    requires
        nt::is_prime(pa),
        nt::is_prime(pb),
        pa != pb,
        lift::is_bound(bound, pa * pb),
        lift::is_refused(va, vb, pa, pb, bound, c),
        lift::is_refused(va, vb, pa, pb, bound, d),
    ensures
        c == d,
{
    let (s, x, i) = stopped(va, vb, pa, pb, bound, c);
    let (t, y, j) = stopped(va, vb, pa, pb, bound, d);
    lemma_one_union(va, vb, s, t);
    let n: int = s.len() as int;
    let xs: bool = lift::lifts(s, x, n, pa, pb, bound) && clearing::clearing_fails_at(x, i);
    let ys: bool = lift::lifts(s, y, n, pa, pb, bound) && clearing::clearing_fails_at(y, j);
    if xs && ys {
        lemma_one_list(s, x, y, n, n, pa, pb, bound);
        assert(y.take(n) =~= y);
        lemma_first_failure(x, i, j);
    } else if xs || (!ys && j > i) {
        // The fraction that one refusal misses is among those of the other.
        if xs {
            assert(x[j].0 == s[j].0);
            assert(lift::is_lift(
                x[j].1 as int,
                x[j].2 as int,
                s[j].1 as int,
                s[j].2 as int,
                pa,
                pb,
                bound,
            ));
        } else {
            assert(y[i].0 == s[i].0);
            assert(lift::is_lift(
                y[i].1 as int,
                y[i].2 as int,
                s[i].1 as int,
                s[i].2 as int,
                pa,
                pb,
                bound,
            ));
        }
    } else if ys {
        assert(y[i].0 == s[i].0);
        assert(lift::is_lift(
            y[i].1 as int,
            y[i].2 as int,
            s[i].1 as int,
            s[i].2 as int,
            pa,
            pb,
            bound,
        ));
    } else if i > j {
        assert(x[j].0 == s[j].0);
        assert(lift::is_lift(
            x[j].1 as int,
            x[j].2 as int,
            s[j].1 as int,
            s[j].2 as int,
            pa,
            pb,
            bound,
        ));
    }
}

/// Clearing fails first at one coordinate.
proof fn lemma_first_failure(rat: Seq<(u32, i128, u128)>, i: int, j: int)
    requires
        clearing::clearing_fails_at(rat, i),
        clearing::clearing_fails_at(rat, j),
    ensures
        i == j,
{
    if i != j {
        let (a, b): (int, int) = if i < j {
            (i, j)
        } else {
            (j, i)
        };
        assert(clearing::lcm_fails(rat, a) || !clearing::lcm_fails(rat, a));
        assert(clearing::lcm_fails(rat, b) || !clearing::lcm_fails(rat, b));
        assert(clearing::scale_fails(rat, a) || !clearing::scale_fails(rat, a));
        assert(clearing::scale_fails(rat, b) || !clearing::scale_fails(rat, b));
        assert(clearing::fits(clearing::primitive(rat, a)) || !clearing::fits(
            clearing::primitive(rat, a),
        ));
        assert(clearing::fits(clearing::primitive(rat, b)) || !clearing::fits(
            clearing::primitive(rat, b),
        ));
    }
}

} // verus!
