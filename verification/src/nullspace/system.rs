//! What a nullspace says of the linear system: its vectors solve it, every solution is a
//! combination of them, and the pivot columns are those that depend on none in front.

use super::profile;
use super::verify;
use super::{ModpNullspace, Triplets};
use crate::linalg;
use crate::nt;
use vstd::prelude::*;

verus! {

/// What row `r` of the system adds up to where `x` stands for the unknowns: the sum, over all
/// triplets of the row, of the weight times the unknown of the column.
pub open spec fn substituted(entries: Seq<(u32, u32, i64)>, x: Seq<int>, r: int) -> int
    decreases entries.len(),
{
    if entries.len() == 0 {
        0
    } else {
        let e = entries.last();
        substituted(entries.drop_last(), x, r) + if e.0 == r {
            e.2 * x[e.1 as int]
        } else {
            0
        }
    }
}

/// `x` solves the system modulo `p`.
pub open spec fn solves(a: Triplets<'_>, x: Seq<int>, p: int) -> bool {
    &&& x.len() == a.cols
    &&& forall|r: int| 0 <= r < a.rows ==> #[trigger] substituted(a.entries@, x, r) % p == 0
}

/// What a sparse vector holds at coordinate `c`.
pub open spec fn held(idx: Seq<u32>, val: Seq<u64>, c: int) -> int
    decreases idx.len(),
{
    if idx.len() == 0 {
        0
    } else if idx.last() == c {
        val[idx.len() - 1] as int
    } else {
        held(idx.drop_last(), val, c)
    }
}

/// Vector `k` of a nullspace, coordinate by coordinate.
pub open spec fn vector(ns: ModpNullspace, n: int, k: int) -> Seq<int> {
    Seq::new(n as nat, |c: int| held(ns.basis@[k].idx@, ns.basis@[k].val@, c))
}

/// Coordinate `c` of the combination of the first `m` vectors of a nullspace, each taken as
/// often as `y` says at the vector's free column.
pub open spec fn combined(
    ns: ModpNullspace,
    n: int,
    free: Seq<int>,
    y: Seq<int>,
    m: int,
    c: int,
) -> int
    decreases m,
{
    if m <= 0 {
        0
    } else {
        combined(ns, n, free, y, m - 1, c) + y[free[m - 1]] * vector(ns, n, m - 1)[c]
    }
}

/// A row of the matrix times a vector is the row of the system with the vector put in.
proof fn lemma_row(entries: Seq<(u32, u32, i64)>, x: Seq<int>, r: int, rows: int)
    requires
        forall|i: int|
            0 <= i < entries.len() ==> super::entry_in_range(
                #[trigger] entries[i],
                rows,
                x.len() as int,
            ),
    ensures
        substituted(entries, x, r) == linalg::dot(
            Seq::new(x.len(), |c: int| profile::entry_sum(entries, r, c)),
            x,
        ),
    decreases entries.len(),
{
    let n: int = x.len() as int;
    let row: Seq<int> = Seq::new(x.len(), |c: int| profile::entry_sum(entries, r, c));
    if entries.len() == 0 {
        linalg::lemma_dot_zero_row(row, x, n);
    } else {
        let prev: Seq<(u32, u32, i64)> = entries.drop_last();
        let e: (u32, u32, i64) = entries.last();
        assert(super::entry_in_range(entries[entries.len() - 1], rows, n));
        assert forall|i: int| 0 <= i < prev.len() implies super::entry_in_range(
            #[trigger] prev[i],
            rows,
            n,
        ) by {
            assert(prev[i] == entries[i]);
        }
        lemma_row(prev, x, r, rows);
        let row0: Seq<int> = Seq::new(x.len(), |c: int| profile::entry_sum(prev, r, c));
        if e.0 == r {
            assert forall|c: int| 0 <= c < n && c != e.1 implies row[c] == row0[c] by {}
            verify::lemma_dot_bump(row0, row, x, e.1 as int, e.2 as int, n);
        } else {
            assert(row =~= row0);
        }
    }
}

/// Solving the system is lying in the kernel of its matrix.
proof fn lemma_solves(a: Triplets<'_>, x: Seq<int>, p: int)
    requires
        a.in_range(),
        x.len() == a.cols,
        p > 0,
    ensures
        solves(a, x, p) <==> linalg::in_kernel(a.mat(), x, p),
{
    let mat: Seq<Seq<int>> = a.mat();
    assert forall|r: int| 0 <= r < a.rows implies (#[trigger] substituted(a.entries@, x, r) % p == 0
        <==> linalg::vanishes(mat[r], x, p)) by {
        lemma_row(a.entries@, x, r, a.rows as int);
        assert(mat[r] =~= Seq::new(x.len(), |c: int| profile::entry_sum(a.entries@, r, c)));
    }
    if solves(a, x, p) {
        assert forall|r: int| 0 <= r < mat.len() implies linalg::vanishes(
            #[trigger] mat[r],
            x,
            p,
        ) by {
            assert(substituted(a.entries@, x, r) % p == 0);
        }
    }
    if linalg::in_kernel(mat, x, p) {
        assert forall|r: int| 0 <= r < a.rows implies #[trigger] substituted(a.entries@, x, r) % p
            == 0 by {
            assert(linalg::vanishes(mat[r], x, p));
        }
    }
}

/// What an ascending sparse vector holds.
proof fn lemma_held(idx: Seq<u32>, val: Seq<u64>, c: int, m: int)
    requires
        profile::ascending(idx),
        idx.len() == val.len(),
        0 <= m <= idx.len(),
    ensures
        forall|k: int|
            0 <= k < m && #[trigger] idx[k] == c ==> held(idx.take(m), val, c) == val[k],
        (forall|k: int| 0 <= k < m ==> #[trigger] idx[k] != c) ==> held(idx.take(m), val, c) == 0,
    decreases m,
{
    if m > 0 {
        lemma_held(idx, val, c, m - 1);
        assert(idx.take(m).drop_last() =~= idx.take(m - 1));
        assert(idx.take(m).last() == idx[m - 1]);
    }
}

/// The coordinates of a vector are those of its dense form.
proof fn lemma_vector(ns: ModpNullspace, mat: Seq<Seq<int>>, n: int, p: int, k: int)
    requires
        n >= 0,
        ns.is_nullspace_of(mat, n, p),
        0 <= k < ns.basis@.len(),
    ensures
        vector(ns, n, k) == profile::expand(ns.basis@[k].idx@, ns.basis@[k].val@, n),
{
    let v = ns.basis@[k];
    assert(profile::is_sparse(v.idx@, v.val@, n, p));
    let e: Seq<int> = profile::expand(v.idx@, v.val@, n);
    assert forall|c: int| 0 <= c < n implies vector(ns, n, k)[c] == e[c] by {
        lemma_held(v.idx@, v.val@, c, v.idx@.len() as int);
        assert(v.idx@.take(v.idx@.len() as int) =~= v.idx@);
        if exists|i: int| 0 <= i < v.idx@.len() && #[trigger] v.idx@[i] == c {
            let i: int = choose|i: int| 0 <= i < v.idx@.len() && #[trigger] v.idx@[i] == c;
            profile::lemma_coef_listed(v.idx@, v.val@, i);
        }
    }
    assert(vector(ns, n, k) =~= e);
}

/// The vectors of a nullspace solve the system: put into any row, each gives a multiple of
/// the modulus. Vector `k` is one at a column that is no pivot column and zero at every other
/// such column, and it lists exactly its nonzero coordinates, ascending.
pub proof fn law_basis_solves_the_system(
    a: Triplets<'_>,
    ns: ModpNullspace,
    p: int,
    k: int,
    f: int,
)
    requires
        p > 1,
        a.in_range(),
        ns.is_nullspace_of(a.mat(), a.cols as int, p),
        0 <= k < ns.basis@.len(),
        f == profile::free_cols(ns.pivot_cols@, a.cols as int)[k],
    ensures
        solves(a, vector(ns, a.cols as int, k), p),
        0 <= f < a.cols,
        !profile::is_pivot(ns.pivot_cols@, f),
        vector(ns, a.cols as int, k)[f] == 1,
        forall|c: int|
            0 <= c < a.cols && c != f && !profile::is_pivot(ns.pivot_cols@, c) ==> #[trigger] vector(
                ns,
                a.cols as int,
                k,
            )[c] == 0,
        forall|i: int|
            0 <= i < ns.basis@[k].idx@.len() ==> 0 < #[trigger] ns.basis@[k].val@[i] < p,
{
    let n: int = a.cols as int;
    let v = ns.basis@[k];
    lemma_vector(ns, a.mat(), n, p, k);
    profile::lemma_free_cols(ns.pivot_cols@, n);
    let x: Seq<int> = profile::expand(v.idx@, v.val@, n);
    assert(profile::is_basis_vector(a.mat(), n, p, ns.pivot_cols@, f, x));
    lemma_solves(a, x, p);
    assert forall|i: int| 0 <= i < v.idx@.len() implies 0 < #[trigger] v.val@[i] < p by {
        assert(profile::is_sparse(v.idx@, v.val@, n, p));
    }
    assert forall|c: int|
        0 <= c < n && c != f && !profile::is_pivot(ns.pivot_cols@, c) implies #[trigger] vector(
        ns,
        n,
        k,
    )[c] == 0 by {
        assert(x[c] == 0);
    }
}

/// Taking a multiple of one vector away from another, under a row.
proof fn lemma_dot_less(row: Seq<int>, y: Seq<int>, b: Seq<int>, z: Seq<int>, t: int, k: int)
    requires
        0 <= k <= row.len(),
        y.len() == row.len(),
        b.len() == row.len(),
        z.len() == row.len(),
        forall|c: int| 0 <= c < row.len() ==> #[trigger] z[c] == y[c] - t * b[c],
    ensures
        linalg::dot_upto(row, z, k) == linalg::dot_upto(row, y, k) - t * linalg::dot_upto(row, b, k),
    decreases k,
{
    if k > 0 {
        lemma_dot_less(row, y, b, z, t, k - 1);
        let r: int = row[k - 1];
        let u: int = y[k - 1];
        let v: int = b[k - 1];
        let d: int = linalg::dot_upto(row, b, k - 1);
        assert(z[k - 1] == u - t * v);
        assert(r * (u - t * v) == r * u - t * (r * v)) by (nonlinear_arith);
        assert(t * (d + r * v) == t * d + t * (r * v)) by (nonlinear_arith);
    } else {
        assert(t * 0 == 0) by (nonlinear_arith);
    }
}

/// Taking a multiple of a kernel vector away leaves a kernel vector.
proof fn lemma_kernel_less(
    mat: Seq<Seq<int>>,
    n: int,
    p: int,
    y: Seq<int>,
    b: Seq<int>,
    z: Seq<int>,
    t: int,
)
    requires
        p > 0,
        linalg::shaped(mat, n),
        y.len() == n,
        b.len() == n,
        z.len() == n,
        linalg::in_kernel(mat, y, p),
        linalg::in_kernel(mat, b, p),
        forall|c: int| 0 <= c < n ==> #[trigger] z[c] == y[c] - t * b[c],
    ensures
        linalg::in_kernel(mat, z, p),
{
    assert forall|i: int| 0 <= i < mat.len() implies linalg::vanishes(#[trigger] mat[i], z, p) by {
        lemma_dot_less(mat[i], y, b, z, t, n);
        assert(linalg::vanishes(mat[i], y, p));
        assert(linalg::vanishes(mat[i], b, p));
        let u: int = linalg::dot(mat[i], y);
        let v: int = linalg::dot(mat[i], b);
        let q: int = v / p;
        vstd::arithmetic::div_mod::lemma_fundamental_div_mod(v, p);
        assert(t * (p * q) == (t * q) * p) by (nonlinear_arith);
        vstd::arithmetic::div_mod::lemma_mod_multiples_vanish(-(t * q), u, p);
        assert(u - (t * q) * p == p * (-(t * q)) + u) by (nonlinear_arith);
    }
}

/// What is left of a kernel vector once the first `m` vectors are taken away.
proof fn lemma_left(
    a: Triplets<'_>,
    ns: ModpNullspace,
    p: int,
    y: Seq<int>,
    m: int,
) -> (z: Seq<int>)
    requires
        p > 1,
        a.in_range(),
        ns.is_nullspace_of(a.mat(), a.cols as int, p),
        y.len() == a.cols,
        linalg::in_kernel(a.mat(), y, p),
        0 <= m <= ns.basis@.len(),
    ensures
        z.len() == a.cols,
        linalg::in_kernel(a.mat(), z, p),
        forall|c: int|
            0 <= c < a.cols ==> #[trigger] z[c] == y[c] - combined(
                ns,
                a.cols as int,
                profile::free_cols(ns.pivot_cols@, a.cols as int),
                y,
                m,
                c,
            ),
    decreases m,
{
    let n: int = a.cols as int;
    let free: Seq<int> = profile::free_cols(ns.pivot_cols@, n);
    if m == 0 {
        y
    } else {
        let w: Seq<int> = lemma_left(a, ns, p, y, m - 1);
        let b: Seq<int> = vector(ns, n, m - 1);
        let t: int = y[free[m - 1]];
        let z: Seq<int> = Seq::new(n as nat, |c: int| w[c] - t * b[c]);
        lemma_vector(ns, a.mat(), n, p, m - 1);
        assert(profile::is_basis_vector(
            a.mat(),
            n,
            p,
            ns.pivot_cols@,
            free[m - 1],
            profile::expand(ns.basis@[m - 1].idx@, ns.basis@[m - 1].val@, n),
        ));
        lemma_kernel_less(a.mat(), n, p, w, b, z, t);
        z
    }
}

/// At a free column the combination of all vectors is the value asked for.
proof fn lemma_combined_free(
    a: Triplets<'_>,
    ns: ModpNullspace,
    p: int,
    y: Seq<int>,
    m: int,
    c: int,
)
    requires
        p > 1,
        a.in_range(),
        ns.is_nullspace_of(a.mat(), a.cols as int, p),
        y.len() == a.cols,
        0 <= m <= ns.basis@.len(),
        0 <= c < a.cols,
        !profile::is_pivot(ns.pivot_cols@, c),
    ensures
        ({
            let free = profile::free_cols(ns.pivot_cols@, a.cols as int);
            &&& (exists|k: int| 0 <= k < m && #[trigger] free[k] == c) ==> combined(
                ns,
                a.cols as int,
                free,
                y,
                m,
                c,
            ) == y[c]
            &&& (forall|k: int| 0 <= k < m ==> #[trigger] free[k] != c) ==> combined(
                ns,
                a.cols as int,
                free,
                y,
                m,
                c,
            ) == 0
        }),
    decreases m,
{
    let n: int = a.cols as int;
    let free: Seq<int> = profile::free_cols(ns.pivot_cols@, n);
    if m > 0 {
        lemma_combined_free(a, ns, p, y, m - 1, c);
        profile::lemma_free_cols(ns.pivot_cols@, n);
        lemma_vector(ns, a.mat(), n, p, m - 1);
        let x: Seq<int> = profile::expand(ns.basis@[m - 1].idx@, ns.basis@[m - 1].val@, n);
        assert(profile::is_basis_vector(a.mat(), n, p, ns.pivot_cols@, free[m - 1], x));
        let t: int = y[free[m - 1]];
        assert(x[c] == if c == free[m - 1] {
            1int
        } else {
            0
        });
        assert(t * 1 == t && t * 0 == 0) by (nonlinear_arith);
        if free[m - 1] == c {
            assert forall|k: int| 0 <= k < m - 1 implies #[trigger] free[k] != c by {
                assert(free[k] < free[m - 1]);
            }
        } else if exists|k: int| 0 <= k < m && #[trigger] free[k] == c {
            let k: int = choose|k: int| 0 <= k < m && #[trigger] free[k] == c;
            assert(0 <= k < m - 1 && free[k] == c);
        }
    }
}

/// Every solution of the system modulo the prime is a combination of the vectors: taken as
/// often as the solution says at their free columns, they add up to it.
pub proof fn law_basis_spans_the_solutions(a: Triplets<'_>, ns: ModpNullspace, p: int, y: Seq<int>)
    requires
        p > 1,
        a.in_range(),
        ns.is_nullspace_of(a.mat(), a.cols as int, p),
        solves(a, y, p),
    ensures
        forall|c: int|
            0 <= c < a.cols ==> (y[c] - #[trigger] combined(
                ns,
                a.cols as int,
                profile::free_cols(ns.pivot_cols@, a.cols as int),
                y,
                ns.basis@.len() as int,
                c,
            )) % p == 0,
{
    let n: int = a.cols as int;
    let m: int = ns.basis@.len() as int;
    let free: Seq<int> = profile::free_cols(ns.pivot_cols@, n);
    lemma_solves(a, y, p);
    let z: Seq<int> = lemma_left(a, ns, p, y, m);
    assert forall|c: int| 0 <= c < n && !profile::is_pivot(ns.pivot_cols@, c) implies nt::cong(
        #[trigger] z[c],
        0,
        p,
    ) by {
        lemma_combined_free(a, ns, p, y, m, c);
        lemma_free_listed(ns.pivot_cols@, n, c);
        let k: int = choose|k: int| 0 <= k < free.len() && #[trigger] free[k] == c;
        assert(0 <= k < m && free[k] == c);
        nt::cong_refl(0, p);
    }
    profile::law_kernel_determined_by_free_columns(a.mat(), n, p, ns.pivot_cols@, z);
    assert forall|c: int| 0 <= c < n implies (y[c] - #[trigger] combined(ns, n, free, y, m, c)) % p
        == 0 by {
        assert(nt::cong(z[c], 0, p));
    }
}

/// A column that is no pivot stands among the free ones.
proof fn lemma_free_listed(piv: Seq<u32>, n: int, c: int)
    requires
        0 <= c < n,
        !profile::is_pivot(piv, c),
    ensures
        exists|k: int|
            0 <= k < profile::free_cols(piv, n).len() && #[trigger] profile::free_cols(piv, n)[k]
                == c,
    decreases n,
{
    let all: Seq<int> = profile::free_cols(piv, n);
    if c == n - 1 {
        assert(all[all.len() - 1] == c);
    } else {
        lemma_free_listed(piv, n - 1, c);
        let prev: Seq<int> = profile::free_cols(piv, n - 1);
        let k: int = choose|k: int| 0 <= k < prev.len() && #[trigger] prev[k] == c;
        assert(all[k] == c);
    }
}

/// The pivot columns are those that depend on no columns in front: a solution that ends at a
/// pivot column, being a multiple of the prime at every later column, is one there too. The
/// other columns depend on those in front: the vector of such a column solves the system and
/// ends there with a one.
pub proof fn law_pivots_are_leftmost(
    a: Triplets<'_>,
    ns: ModpNullspace,
    p: int,
    j: int,
    y: Seq<int>,
)
    requires
        p > 1,
        a.in_range(),
        ns.is_nullspace_of(a.mat(), a.cols as int, p),
        0 <= j < a.cols,
    ensures
        ns.rank == ns.pivot_cols@.len(),
        ns.rank + ns.basis@.len() == a.cols,
        profile::is_pivot(ns.pivot_cols@, j) && solves(a, y, p) && (forall|c: int|
            j < c < a.cols ==> #[trigger] y[c] % p == 0) ==> y[j] % p == 0,
        !profile::is_pivot(ns.pivot_cols@, j) ==> exists|k: int|
            0 <= k < ns.basis@.len() && #[trigger] ends_at(vector(ns, a.cols as int, k), j, p),
{
    let n: int = a.cols as int;
    let mat: Seq<Seq<int>> = a.mat();
    let piv: Seq<u32> = ns.pivot_cols@;
    super::law_rank_nullity(mat, n, p, ns);
    assert(profile::is_pivot(piv, j) <==> !profile::dependent(mat, n, p, j));
    if profile::is_pivot(piv, j) && solves(a, y, p) && (forall|c: int|
        j < c < a.cols ==> #[trigger] y[c] % p == 0) {
        lemma_solves(a, y, p);
        if y[j] % p != 0 {
            assert forall|c: int| j < c < n implies nt::cong(#[trigger] y[c], 0, p) by {
                assert(y[c] % p == 0);
            }
            assert(profile::leads_at(mat, n, p, j, y));
        }
    }
    if !profile::is_pivot(piv, j) {
        lemma_free_listed(piv, n, j);
        let free: Seq<int> = profile::free_cols(piv, n);
        let k: int = choose|k: int| 0 <= k < free.len() && #[trigger] free[k] == j;
        lemma_vector(ns, mat, n, p, k);
        let x: Seq<int> = vector(ns, n, k);
        assert(profile::is_basis_vector(mat, n, p, piv, j, x));
        assert(x[j] == 1);
        assert(!nt::cong(1, 0, p)) by {
            vstd::arithmetic::div_mod::lemma_small_mod(1, p as nat);
        }
        let last: int = profile::lemma_last_nonzero(x, p, n);
        if last != j {
            if profile::is_pivot(piv, last) {
                assert(profile::leads_at(mat, n, p, last, x));
                assert(profile::dependent(mat, n, p, last));
            } else {
                assert(x[last] == 0);
                nt::cong_refl(0, p);
            }
        }
        assert forall|c: int| j < c < n implies #[trigger] x[c] % p == 0 by {
            assert(nt::cong(x[c], 0, p));
        }
        assert(ends_at(vector(ns, n, k), j, p));
    }
}

/// The vector is one at `j` and a multiple of `p` at every later coordinate.
pub open spec fn ends_at(x: Seq<int>, j: int, p: int) -> bool {
    &&& x[j] == 1
    &&& forall|c: int| j < c < x.len() ==> #[trigger] x[c] % p == 0
}

/// The sum that the check of an integer vector forms for a row is the row of the system with
/// the vector put in, over the integers: a vector that passes is an exact solution.
pub proof fn law_check_reads_the_system(a: Triplets<'_>, y: Seq<(u32, i128)>, r: u32)
    requires
        a.in_range(),
        r < a.rows,
        a.cols <= u32::MAX,
    ensures
        verify::row_sum(a.entries@, y, r) == substituted(
            a.entries@,
            verify::dense_vector(y, a.cols as int),
            r as int,
        ),
{
    let x: Seq<int> = verify::dense_vector(y, a.cols as int);
    verify::law_check_is_dot(a, y, r);
    lemma_row(a.entries@, x, r as int, a.rows as int);
    assert(a.mat()[r as int] =~= Seq::new(
        x.len(),
        |c: int| profile::entry_sum(a.entries@, r as int, c),
    ));
}

} // verus!
