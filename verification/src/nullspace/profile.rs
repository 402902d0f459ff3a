//! What a nullspace modulo a prime is: the leftmost column rank profile, the
//! canonical basis, and the laws that pin both down.

use crate::linalg;
use crate::nt;
use vstd::prelude::*;

verus! {

/// The sum of the weights that `entries` holds at row `r` and column `c`.
pub open spec fn entry_sum(entries: Seq<(u32, u32, i64)>, r: int, c: int) -> int
    decreases entries.len(),
{
    if entries.len() == 0 {
        0
    } else {
        let e = entries.last();
        entry_sum(entries.drop_last(), r, c) + if e.0 == r && e.1 == c {
            e.2 as int
        } else {
            0
        }
    }
}

/// The matrix that accumulating triplets denote.
pub open spec fn matrix(rows: int, cols: int, entries: Seq<(u32, u32, i64)>) -> Seq<Seq<int>> {
    Seq::new(
        rows as nat,
        |r: int| Seq::new(cols as nat, |c: int| entry_sum(entries, r, c)),
    )
}

/// `y` is a kernel vector modulo `p` whose last nonzero coordinate is `j`.
pub open spec fn leads_at(mat: Seq<Seq<int>>, n: int, p: int, j: int, y: Seq<int>) -> bool {
    &&& y.len() == n
    &&& linalg::in_kernel(mat, y, p)
    &&& !nt::cong(y[j], 0, p)
    &&& forall|c: int| j < c < n ==> nt::cong(#[trigger] y[c], 0, p)
}

/// Column `j` depends on the columns before it: it adds nothing to the rank of the
/// columns `0..j`.
pub open spec fn dependent(mat: Seq<Seq<int>>, n: int, p: int, j: int) -> bool {
    exists|y: Seq<int>| leads_at(mat, n, p, j, y)
}

/// `s` is strictly ascending.
pub open spec fn ascending(s: Seq<u32>) -> bool {
    forall|i: int, j: int| 0 <= i < j < s.len() ==> s[i] < s[j]
}

/// Column `c` occurs in `piv`.
pub open spec fn is_pivot(piv: Seq<u32>, c: int) -> bool {
    exists|k: int| 0 <= k < piv.len() && #[trigger] piv[k] == c
}

/// `piv` is the leftmost column rank profile of `mat` modulo `p`: ascending, and
/// made of the columns that do not depend on the ones before them.
pub open spec fn is_profile(mat: Seq<Seq<int>>, n: int, p: int, piv: Seq<u32>) -> bool {
    &&& ascending(piv)
    &&& forall|k: int| 0 <= k < piv.len() ==> #[trigger] piv[k] < n
    &&& forall|j: int| 0 <= j < n ==> (#[trigger] is_pivot(piv, j) <==> !dependent(mat, n, p, j))
}

/// The columns below `n` that are not in `piv`, ascending.
pub open spec fn free_cols(piv: Seq<u32>, n: int) -> Seq<int>
    decreases n,
{
    if n <= 0 {
        Seq::empty()
    } else if is_pivot(piv, n - 1) {
        free_cols(piv, n - 1)
    } else {
        free_cols(piv, n - 1).push(n - 1)
    }
}

/// The value that a sparse vector holds at coordinate `c`: zero where it lists none.
pub open spec fn coef(idx: Seq<u32>, val: Seq<u64>, c: int) -> int {
    if exists|k: int| 0 <= k < idx.len() && #[trigger] idx[k] == c {
        val[choose|k: int| 0 <= k < idx.len() && #[trigger] idx[k] == c] as int
    } else {
        0
    }
}

/// The dense vector of length `n` that a sparse vector stands for.
pub open spec fn expand(idx: Seq<u32>, val: Seq<u64>, n: int) -> Seq<int> {
    Seq::new(n as nat, |c: int| coef(idx, val, c))
}

/// A sparse vector of length `n` in normal form: parallel arrays, coordinates
/// strictly ascending and in range.
pub open spec fn is_row(idx: Seq<u32>, val: Seq<u64>, n: int, p: int) -> bool {
    &&& idx.len() == val.len()
    &&& ascending(idx)
    &&& forall|k: int| 0 <= k < idx.len() ==> #[trigger] idx[k] < n
    &&& forall|k: int| 0 <= k < val.len() ==> #[trigger] val[k] < p
}

/// A sparse vector of nonzero residues.
pub open spec fn is_sparse(idx: Seq<u32>, val: Seq<u64>, n: int, p: int) -> bool {
    &&& is_row(idx, val, n, p)
    &&& forall|k: int| 0 <= k < val.len() ==> 0 < #[trigger] val[k]
}

/// The canonical kernel vector of the free column `f`: one at `f`, zero at every
/// other free column.
pub open spec fn is_basis_vector(
    mat: Seq<Seq<int>>,
    n: int,
    p: int,
    piv: Seq<u32>,
    f: int,
    y: Seq<int>,
) -> bool {
    &&& y.len() == n
    &&& linalg::in_kernel(mat, y, p)
    &&& forall|c: int|
        0 <= c < n && !is_pivot(piv, c) ==> #[trigger] y[c] == (if c == f {
            1int
        } else {
            0
        })
}

/// The rows that `wit` names have, on their own, the kernel of the whole matrix, and
/// there are `rank` of them.
pub open spec fn is_witness(
    mat: Seq<Seq<int>>,
    n: int,
    p: int,
    rank: int,
    wit: Seq<u32>,
) -> bool {
    &&& wit.len() == rank
    &&& wit.no_duplicates()
    &&& forall|k: int| 0 <= k < wit.len() ==> #[trigger] wit[k] < mat.len()
    &&& forall|y: Seq<int>|
        y.len() == n && linalg::kills(mat, wit.map_values(|w: u32| w as int), y, p)
            ==> #[trigger] linalg::in_kernel(mat, y, p)
}

/// A coordinate that is listed holds the value listed beside it.
pub proof fn lemma_coef_listed(idx: Seq<u32>, val: Seq<u64>, k: int)
    requires
        ascending(idx),
        0 <= k < idx.len(),
    ensures
        coef(idx, val, idx[k] as int) == val[k],
{
    let c: int = idx[k] as int;
    let j: int = choose|j: int| 0 <= j < idx.len() && #[trigger] idx[j] == c;
    assert(idx[k] == c);
    assert(idx[j] == c);
    if j < k {
        assert(idx[j] < idx[k]);
    } else if k < j {
        assert(idx[k] < idx[j]);
    }
}

/// The coordinates of a row are residues.
pub proof fn lemma_coef_range(idx: Seq<u32>, val: Seq<u64>, n: int, p: int, c: int)
    requires
        p > 0,
        is_row(idx, val, n, p),
    ensures
        0 <= coef(idx, val, c) < p,
{
    if exists|k: int| 0 <= k < idx.len() && #[trigger] idx[k] == c {
        let k: int = choose|k: int| 0 <= k < idx.len() && #[trigger] idx[k] == c;
        assert(val[k] < p);
    }
}

/// A sparse vector of nonzero residues lists exactly its nonzero coordinates.
pub proof fn lemma_coef_nonzero(idx: Seq<u32>, val: Seq<u64>, n: int, p: int, c: int)
    requires
        is_sparse(idx, val, n, p),
    ensures
        coef(idx, val, c) != 0 <==> is_pivot(idx, c),
{
    if is_pivot(idx, c) {
        let k: int = choose|k: int| 0 <= k < idx.len() && #[trigger] idx[k] == c;
        lemma_coef_listed(idx, val, k);
        assert(0 < val[k]);
    }
}

/// Two strictly ascending sequences with the same members are equal.
pub proof fn lemma_ascending_unique(a: Seq<u32>, b: Seq<u32>)
    requires
        ascending(a),
        ascending(b),
        forall|c: int| #[trigger] is_pivot(a, c) <==> is_pivot(b, c),
    ensures
        a =~= b,
    decreases a.len(),
{
    if a.len() == 0 {
        if b.len() > 0 {
            assert(b[0] == b[0] as int);
            assert(is_pivot(b, b[0] as int));
            assert(is_pivot(a, b[0] as int));
        }
    } else {
        assert(a[a.len() - 1] == a.last() as int);
        assert(is_pivot(a, a.last() as int));
        assert(is_pivot(b, a.last() as int));
        let j: int = choose|k: int| 0 <= k < b.len() && #[trigger] b[k] == a.last() as int;
        assert(b[b.len() - 1] == b.last() as int);
        assert(is_pivot(b, b.last() as int));
        assert(is_pivot(a, b.last() as int));
        let i: int = choose|k: int| 0 <= k < a.len() && #[trigger] a[k] == b.last() as int;
        if i < a.len() - 1 {
            assert(a[i] < a[a.len() - 1]);
        }
        if j < b.len() - 1 {
            assert(b[j] < b[b.len() - 1]);
        }
        assert(a.last() == b.last());
        let a1: Seq<u32> = a.drop_last();
        let b1: Seq<u32> = b.drop_last();
        assert forall|c: int| #[trigger] is_pivot(a1, c) <==> is_pivot(b1, c) by {
            lemma_drop_last_members(a, c);
            lemma_drop_last_members(b, c);
            assert(is_pivot(a, c) <==> is_pivot(b, c));
        }
        lemma_ascending_unique(a1, b1);
        assert(a =~= a1.push(a.last()));
        assert(b =~= b1.push(b.last()));
    }
}

proof fn lemma_drop_last_members(a: Seq<u32>, c: int)
    requires
        ascending(a),
        a.len() > 0,
    ensures
        is_pivot(a.drop_last(), c) <==> is_pivot(a, c) && c != a.last(),
{
    let a1: Seq<u32> = a.drop_last();
    if is_pivot(a1, c) {
        let k: int = choose|k: int| 0 <= k < a1.len() && #[trigger] a1[k] == c;
        assert(a[k] == c);
        assert(a[k] < a[a.len() - 1]);
    }
    if is_pivot(a, c) && c != a.last() {
        let k: int = choose|k: int| 0 <= k < a.len() && #[trigger] a[k] == c;
        assert(k < a.len() - 1);
        assert(a1[k] == c);
    }
}

/// The free columns are the columns below `n` outside `piv`, each once, ascending.
pub proof fn lemma_free_cols(piv: Seq<u32>, n: int)
    requires
        0 <= n,
    ensures
        forall|k: int|
            0 <= k < free_cols(piv, n).len() ==> 0 <= #[trigger] free_cols(piv, n)[k] < n
                && !is_pivot(piv, free_cols(piv, n)[k]),
        forall|i: int, j: int|
            0 <= i < j < free_cols(piv, n).len() ==> free_cols(piv, n)[i] < free_cols(piv, n)[j],
    decreases n,
{
    if n > 0 {
        lemma_free_cols(piv, n - 1);
        let prev: Seq<int> = free_cols(piv, n - 1);
        let all: Seq<int> = free_cols(piv, n);
        assert forall|k: int| 0 <= k < all.len() implies 0 <= #[trigger] all[k] < n && !is_pivot(
            piv,
            all[k],
        ) by {
            if k < prev.len() {
                assert(all[k] == prev[k]);
            }
        }
        assert forall|i: int, j: int| 0 <= i < j < all.len() implies all[i] < all[j] by {
            assert(all[i] == prev[i]);
            if j < prev.len() {
                assert(all[j] == prev[j]);
            }
        }
    }
}

/// A free column has a place among the free columns.
pub proof fn lemma_free_col_listed(piv: Seq<u32>, n: int, c: int) -> (k: int)
    requires
        0 <= c < n,
        !is_pivot(piv, c),
    ensures
        0 <= k < free_cols(piv, n).len(),
        free_cols(piv, n)[k] == c,
    decreases n,
{
    if c == n - 1 {
        free_cols(piv, n - 1).len() as int
    } else {
        lemma_free_col_listed(piv, n - 1, c)
    }
}

/// Pivot and free columns together are all columns.
pub proof fn lemma_free_count(piv: Seq<u32>, n: int)
    requires
        0 <= n,
        ascending(piv),
        forall|k: int| 0 <= k < piv.len() ==> #[trigger] piv[k] < n,
    ensures
        free_cols(piv, n).len() + piv.len() == n,
    decreases n,
{
    if n == 0 {
        if piv.len() > 0 {
            assert(piv[0] < n);
        }
    } else if is_pivot(piv, n - 1) {
        let k: int = choose|k: int| 0 <= k < piv.len() && #[trigger] piv[k] == n - 1;
        if k < piv.len() - 1 {
            assert(piv[k] < piv[piv.len() - 1]);
        }
        let p1: Seq<u32> = piv.drop_last();
        assert forall|i: int| 0 <= i < p1.len() implies #[trigger] p1[i] < n - 1 by {
            assert(piv[i] < piv[piv.len() - 1]);
        }
        lemma_free_count(p1, n - 1);
        lemma_free_cols_local(piv, p1, n - 1);
    } else {
        assert forall|i: int| 0 <= i < piv.len() implies #[trigger] piv[i] < n - 1 by {
            assert(piv[i] < n);
            if piv[i] == n - 1 {
                assert(is_pivot(piv, n - 1));
            }
        }
        lemma_free_count(piv, n - 1);
    }
}

/// The free columns below `n` depend only on the pivots below `n`.
pub proof fn lemma_free_cols_local(a: Seq<u32>, b: Seq<u32>, n: int)
    requires
        ascending(a),
        a.len() > 0,
        b == a.drop_last(),
        n <= a.last(),
    ensures
        free_cols(a, n) == free_cols(b, n),
    decreases n,
{
    if n > 0 {
        lemma_free_cols_local(a, b, n - 1);
        lemma_drop_last_members(a, n - 1);
    }
}

/// The last coordinate at which a vector is not zero modulo `p`.
pub proof fn lemma_last_nonzero(y: Seq<int>, p: int, k: int) -> (j: int)
    requires
        0 <= k <= y.len(),
        exists|c: int| 0 <= c < k && !nt::cong(#[trigger] y[c], 0, p),
        forall|c: int| k <= c < y.len() ==> nt::cong(#[trigger] y[c], 0, p),
    ensures
        0 <= j < k,
        !nt::cong(y[j], 0, p),
        forall|c: int| j < c < y.len() ==> nt::cong(#[trigger] y[c], 0, p),
    decreases k,
{
    if !nt::cong(y[k - 1], 0, p) {
        k - 1
    } else {
        let c: int = choose|c: int| 0 <= c < k && !nt::cong(#[trigger] y[c], 0, p);
        assert(c < k - 1);
        lemma_last_nonzero(y, p, k - 1)
    }
}

/// A kernel vector that vanishes on the free columns vanishes everywhere.
pub proof fn law_kernel_determined_by_free_columns(
    mat: Seq<Seq<int>>,
    n: int,
    p: int,
    piv: Seq<u32>,
    y: Seq<int>,
)
    requires
        p > 1,
        is_profile(mat, n, p, piv),
        y.len() == n,
        linalg::in_kernel(mat, y, p),
        forall|c: int|
            0 <= c < n && !is_pivot(piv, c) ==> nt::cong(#[trigger] y[c], 0, p),
    ensures
        forall|c: int| 0 <= c < n ==> nt::cong(#[trigger] y[c], 0, p),
{
    if exists|c: int| 0 <= c < n && !nt::cong(#[trigger] y[c], 0, p) {
        let j: int = lemma_last_nonzero(y, p, n);
        assert(leads_at(mat, n, p, j, y));
        assert(dependent(mat, n, p, j));
        assert(is_pivot(piv, j) <==> !dependent(mat, n, p, j));
        assert(nt::cong(y[j], 0, p));
    }
}

/// A matrix has one leftmost column rank profile modulo `p`.
pub proof fn law_profile_unique(
    mat: Seq<Seq<int>>,
    n: int,
    p: int,
    piv1: Seq<u32>,
    piv2: Seq<u32>,
)
    requires
        is_profile(mat, n, p, piv1),
        is_profile(mat, n, p, piv2),
    ensures
        piv1 == piv2,
{
    assert forall|c: int| #[trigger] is_pivot(piv1, c) <==> is_pivot(piv2, c) by {
        if is_pivot(piv1, c) {
            let k: int = choose|k: int| 0 <= k < piv1.len() && #[trigger] piv1[k] == c;
            assert(piv1[k] < n);
        }
        if is_pivot(piv2, c) {
            let k: int = choose|k: int| 0 <= k < piv2.len() && #[trigger] piv2[k] == c;
            assert(piv2[k] < n);
        }
        if 0 <= c < n {
            assert(is_pivot(piv1, c) <==> !dependent(mat, n, p, c));
            assert(is_pivot(piv2, c) <==> !dependent(mat, n, p, c));
        }
    }
    lemma_ascending_unique(piv1, piv2);
}

/// A free column has one canonical kernel vector, and one sparse form of it.
pub proof fn law_basis_vector_unique(
    mat: Seq<Seq<int>>,
    n: int,
    p: int,
    piv: Seq<u32>,
    f: int,
    idx1: Seq<u32>,
    val1: Seq<u64>,
    idx2: Seq<u32>,
    val2: Seq<u64>,
)
    requires
        p > 1,
        n >= 0,
        linalg::shaped(mat, n),
        is_profile(mat, n, p, piv),
        is_sparse(idx1, val1, n, p),
        is_sparse(idx2, val2, n, p),
        is_basis_vector(mat, n, p, piv, f, expand(idx1, val1, n)),
        is_basis_vector(mat, n, p, piv, f, expand(idx2, val2, n)),
    ensures
        idx1 == idx2,
        val1 == val2,
{
    let y1: Seq<int> = expand(idx1, val1, n);
    let y2: Seq<int> = expand(idx2, val2, n);
    let d: Seq<int> = Seq::new(n as nat, |c: int| y1[c] - y2[c]);
    assert forall|i: int| 0 <= i < mat.len() implies linalg::vanishes(
        #[trigger] mat[i],
        d,
        p,
    ) by {
        assert forall|c: int| 0 <= c < n implies #[trigger] d[c] == 1 * y1[c] + (-1) * y2[c] by {}
        linalg::lemma_dot_combine(mat[i], y1, y2, d, 1, -1, n);
        assert(linalg::vanishes(mat[i], y1, p));
        assert(linalg::vanishes(mat[i], y2, p));
        nt::cong_minus(linalg::dot(mat[i], y1), 0, linalg::dot(mat[i], y2), 0, p);
    }
    assert forall|c: int| 0 <= c < n && !is_pivot(piv, c) implies nt::cong(
        #[trigger] d[c],
        0,
        p,
    ) by {
        assert(y1[c] == y2[c]);
        nt::cong_refl(0, p);
    }
    law_kernel_determined_by_free_columns(mat, n, p, piv, d);
    assert forall|c: int| #[trigger] coef(idx1, val1, c) == coef(idx2, val2, c) by {
        if 0 <= c < n {
            lemma_coef_range(idx1, val1, n, p, c);
            lemma_coef_range(idx2, val2, n, p, c);
            assert(y1[c] == coef(idx1, val1, c) && y2[c] == coef(idx2, val2, c));
            assert(nt::cong(d[c], 0, p));
            nt::small_multiple_is_zero(d[c], p);
        } else {
            if exists|k: int| 0 <= k < idx1.len() && #[trigger] idx1[k] == c {
                let k: int = choose|k: int| 0 <= k < idx1.len() && #[trigger] idx1[k] == c;
                assert(idx1[k] < n);
            }
            if exists|k: int| 0 <= k < idx2.len() && #[trigger] idx2[k] == c {
                let k: int = choose|k: int| 0 <= k < idx2.len() && #[trigger] idx2[k] == c;
                assert(idx2[k] < n);
            }
        }
    }
    assert forall|c: int| #[trigger] is_pivot(idx1, c) <==> is_pivot(idx2, c) by {
        lemma_coef_nonzero(idx1, val1, n, p, c);
        lemma_coef_nonzero(idx2, val2, n, p, c);
        assert(coef(idx1, val1, c) == coef(idx2, val2, c));
    }
    lemma_ascending_unique(idx1, idx2);
    assert forall|k: int| 0 <= k < val1.len() implies val1[k] == val2[k] by {
        lemma_coef_listed(idx1, val1, k);
        lemma_coef_listed(idx2, val2, k);
        assert(coef(idx1, val1, idx1[k] as int) == coef(idx2, val2, idx1[k] as int));
    }
    assert(val1 =~= val2);
}

} // verus!
