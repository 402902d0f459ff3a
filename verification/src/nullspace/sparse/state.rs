//! What the row-space reduction keeps between pivots.

use super::store::RowStore;
use crate::linalg;
use crate::nullspace::profile;
use crate::rowspace;
use vstd::prelude::*;

verus! {

/// Row ids as mathematical integers.
pub open spec fn ints(s: Seq<usize>) -> Seq<int> {
    Seq::new(s.len(), |k: int| s[k] as int)
}

/// Retired rows are distinct and no longer active, and a row that is neither active
/// nor retired is empty.
pub open spec fn shape(st: &RowStore, active: Seq<bool>, done: Seq<usize>) -> bool {
    &&& active.len() == st.cols@.len()
    &&& done.no_duplicates()
    &&& forall|k: int|
        0 <= k < done.len() ==> #[trigger] done[k] < st.cols@.len() && !active[done[k] as int]
    &&& forall|t: int|
        0 <= t < st.cols@.len() && !#[trigger] active[t] && !ints(done).contains(t)
            ==> st.cols@[t]@.len() == 0
}

/// The retired rows `done` are pivot rows of an elimination of `org`, triangular with
/// pivots `piv`, and every other row is zero at those pivots.
pub open spec fn progress(
    st: &RowStore,
    org: Seq<Seq<int>>,
    done: Seq<usize>,
    piv: Seq<int>,
    n: int,
    p: int,
) -> bool {
    &&& linalg::elimination(st.rows(n), org, ints(done), n, p)
    &&& rowspace::triangular(st.rows(n), ints(done), piv, n, p)
    &&& forall|t: int, i: int|
        0 <= t < st.cols@.len() && !ints(done).contains(t) && 0 <= i < piv.len()
            ==> #[trigger] st.rows(n)[t][piv[i]] == 0
}

/// The dot product with a sparse row is the dot product of its values with the
/// coordinates it names.
pub proof fn lemma_expand_dot(cmap: Seq<u32>, val: Seq<u64>, y: Seq<int>, n: int, c: int, k: int)
    requires
        cmap.len() == val.len(),
        profile::ascending(cmap),
        y.len() == n,
        0 <= c <= n,
        0 <= k <= cmap.len(),
        forall|i: int| 0 <= i < k ==> #[trigger] cmap[i] < c,
        forall|i: int| k <= i < cmap.len() ==> c <= #[trigger] cmap[i],
    ensures
        linalg::dot_upto(profile::expand(cmap, val, n), y, c) == linalg::dot_upto(
            ints_of(val),
            rowspace::restrict(y, columns(cmap)),
            k,
        ),
    decreases c,
{
    let row: Seq<int> = profile::expand(cmap, val, n);
    let yb: Seq<int> = rowspace::restrict(y, columns(cmap));
    if c <= 0 {
        if k > 0 {
            assert(cmap[k - 1] < c);
        }
    } else if k > 0 && cmap[k - 1] == c - 1 {
        assert forall|i: int| 0 <= i < k - 1 implies #[trigger] cmap[i] < c - 1 by {
            assert(cmap[i] < cmap[k - 1]);
        }
        assert forall|i: int| k - 1 <= i < cmap.len() implies c - 1 <= #[trigger] cmap[i] by {
            if k - 1 < i {
                assert(cmap[k - 1] < cmap[i]);
            }
        }
        lemma_expand_dot(cmap, val, y, n, c - 1, k - 1);
        profile::lemma_coef_listed(cmap, val, k - 1);
        assert(row[c - 1] == val[k - 1]);
        assert(yb[k - 1] == y[c - 1]);
    } else {
        assert forall|i: int| 0 <= i < k implies #[trigger] cmap[i] < c - 1 by {
            assert(cmap[i] < c);
            if cmap[i] == c - 1 && i < k - 1 {
                assert(cmap[i] < cmap[k - 1]);
                assert(cmap[k - 1] < c);
            }
        }
        assert forall|i: int| k <= i < cmap.len() implies c - 1 <= #[trigger] cmap[i] by {
            assert(c <= cmap[i]);
        }
        lemma_expand_dot(cmap, val, y, n, c - 1, k);
        if profile::is_pivot(cmap, c - 1) {
            let i: int = choose|i: int| 0 <= i < cmap.len() && #[trigger] cmap[i] == c - 1;
            if i < k {
                assert(cmap[i] < c - 1);
            } else {
                assert(c <= cmap[i]);
            }
        }
        assert(profile::coef(cmap, val, c - 1) == 0);
        assert(row[c - 1] == 0);
        assert(0 * y[c - 1] == 0) by (nonlinear_arith);
    }
}

/// Residues as mathematical integers.
pub open spec fn ints_of(val: Seq<u64>) -> Seq<int> {
    Seq::new(val.len(), |k: int| val[k] as int)
}

/// Column indices as mathematical integers.
pub open spec fn columns(cmap: Seq<u32>) -> Seq<int> {
    Seq::new(cmap.len(), |k: int| cmap[k] as int)
}

} // verus!
