//! From triplets to sorted sparse rows: duplicates summed, zero rows and repeated rows
//! dropped.

use super::fill;
use super::store;
use super::store::RowStore;
use crate::nt;
use crate::nullspace::arith::{addmod, residue};
use crate::nullspace::profile;
use crate::nullspace::{entry_in_range, NullspaceError, Triplets};
use std::collections::HashMap;
use vstd::prelude::*;

verus! {

broadcast use vstd::std_specs::hash::group_hash_axioms;

/// The sum of the weights that a column's entries hold at row `r`.
spec fn col_sum(b: Seq<(u32, i64)>, r: int) -> int
    decreases b.len(),
{
    if b.len() == 0 {
        0
    } else {
        col_sum(b.drop_last(), r) + if b.last().0 == r {
            b.last().1 as int
        } else {
            0
        }
    }
}

/// The entries of each column.
fn bucket_columns(a: Triplets<'_>) -> (by_col: Vec<Vec<(u32, i64)>>)
    requires
        a.in_range(),
    ensures
        by_col@.len() == a.cols,
        forall|c: int, r: int|
            0 <= c < a.cols ==> #[trigger] col_sum(by_col@[c]@, r) == profile::entry_sum(
                a.entries@,
                r,
                c,
            ),
        forall|c: int, k: int|
            0 <= c < a.cols && 0 <= k < by_col@[c]@.len() ==> (#[trigger] by_col@[c]@[k]).0 < a.rows,
{
    let mut by_col: Vec<Vec<(u32, i64)>> = Vec::new();
    let mut c: usize = 0;
    while c < a.cols
        invariant
            c <= a.cols,
            by_col@.len() == c,
            forall|d: int| 0 <= d < c ==> (#[trigger] by_col@[d])@.len() == 0,
        decreases a.cols - c,
    {
        by_col.push(Vec::new());
        c += 1;
    }
    let mut i: usize = 0;
    proof {
        assert(a.entries@.take(0) =~= Seq::empty());
    }
    while i < a.entries.len()
        invariant
            a.in_range(),
            i <= a.entries@.len(),
            by_col@.len() == a.cols,
            forall|c: int, r: int|
                0 <= c < a.cols ==> #[trigger] col_sum(by_col@[c]@, r) == profile::entry_sum(
                    a.entries@.take(i as int),
                    r,
                    c,
                ),
            forall|c: int, k: int|
                0 <= c < a.cols && 0 <= k < by_col@[c]@.len() ==> (#[trigger] by_col@[c]@[k]).0
                    < a.rows,
        decreases a.entries@.len() - i,
    {
        let e: (u32, u32, i64) = a.entries[i];
        assert(entry_in_range(a.entries@[i as int], a.rows as int, a.cols as int));
        let ghost before = by_col@;
        by_col[e.1 as usize].push((e.0, e.2));
        proof {
            let cut = a.entries@.take(i + 1);
            assert(cut.drop_last() =~= a.entries@.take(i as int));
            assert(cut.last() == e);
            assert forall|c: int, r: int| 0 <= c < a.cols implies #[trigger] col_sum(by_col@[c]@, r)
                == profile::entry_sum(cut, r, c) by {
                assert(col_sum(before[c]@, r) == profile::entry_sum(
                    a.entries@.take(i as int),
                    r,
                    c,
                ));
                if c == e.1 {
                    assert(by_col@[c]@ == before[c]@.push((e.0, e.2)));
                    assert(by_col@[c]@.drop_last() =~= before[c]@);
                } else {
                    assert(by_col@[c] == before[c]);
                }
            }
            assert forall|c: int, k: int|
                0 <= c < a.cols && 0 <= k < by_col@[c]@.len() implies (#[trigger] by_col@[c]@[k]).0
                < a.rows by {
                if c == e.1 {
                    assert(by_col@[c]@ == before[c]@.push((e.0, e.2)));
                    if k < before[c]@.len() {
                        assert(by_col@[c]@[k] == before[c]@[k]);
                    }
                } else {
                    assert(by_col@[c]@[k] == before[c]@[k]);
                }
            }
        }
        i += 1;
    }
    assert(a.entries@.take(i as int) =~= a.entries@);
    by_col
}

/// Adds `w` at column `c` of a row whose columns are at most `c`.
fn add_entry(rc: &mut Vec<u32>, rv: &mut Vec<u64>, c: u32, w: u64, p: u64, Ghost(n): Ghost<int>)
    requires
        p > 0,
        w < p,
        c < n,
        profile::is_row(old(rc)@, old(rv)@, n, p as int),
        forall|k: int| 0 <= k < old(rc)@.len() ==> #[trigger] old(rc)@[k] <= c,
    ensures
        profile::is_row(final(rc)@, final(rv)@, n, p as int),
        forall|k: int| 0 <= k < final(rc)@.len() ==> #[trigger] final(rc)@[k] <= c,
        forall|j: int|
            j != c ==> #[trigger] profile::coef(final(rc)@, final(rv)@, j) == profile::coef(
                old(rc)@,
                old(rv)@,
                j,
            ),
        profile::coef(final(rc)@, final(rv)@, c as int) == (profile::coef(
            old(rc)@,
            old(rv)@,
            c as int,
        ) + w) % p as int,
{
    let ghost rc0 = rc@;
    let ghost rv0 = rv@;
    let len: usize = rc.len();
    if len > 0 && rc[len - 1] == c {
        assert(rv@[len - 1] < p);
        let s: u64 = addmod(rv[len - 1], w, p);
        rv.set(len - 1, s);
        proof {
            profile::lemma_coef_listed(rc0, rv0, len - 1);
            profile::lemma_coef_listed(rc@, rv@, len - 1);
            assert forall|j: int| j != c implies #[trigger] profile::coef(rc@, rv@, j)
                == profile::coef(rc0, rv0, j) by {
                if exists|k: int| 0 <= k < rc0.len() && #[trigger] rc0[k] == j {
                    let k: int = choose|k: int| 0 <= k < rc0.len() && #[trigger] rc0[k] == j;
                    profile::lemma_coef_listed(rc0, rv0, k);
                    profile::lemma_coef_listed(rc@, rv@, k);
                }
            }
        }
    } else {
        proof {
            assert forall|k: int| 0 <= k < rc0.len() implies #[trigger] rc0[k] < c by {
                if k < len - 1 {
                    assert(rc0[k] < rc0[len - 1]);
                }
            }
            assert forall|j: int| #[trigger] profile::coef(rc0.push(c), rv0.push(w), j) == if j
                == c {
                w as int
            } else {
                profile::coef(rc0, rv0, j)
            } by {
                store::lemma_coef_push(rc0, rv0, c, w, j);
            }
            store::lemma_coef_push(rc0, rv0, c, w, c as int);
            if profile::is_pivot(rc0, c as int) {
                let k: int = choose|k: int| 0 <= k < rc0.len() && #[trigger] rc0[k] == c as int;
                assert(rc0[k] < c);
            }
            store::lemma_coef_absent(rc0, rv0, c as int);
            nt::cong_mod(w as int, p as int);
            nt::cong_small(w as int % p as int, w as int, p as int);
        }
        rc.push(c);
        rv.push(w);
    }
}

/// Row `r` holds the residues of the matrix in the columns below `c`, and nothing
/// from `c` on.
spec fn gathered(
    rc: Seq<u32>,
    rv: Seq<u64>,
    a: Triplets<'_>,
    r: int,
    c: int,
    p: int,
) -> bool {
    &&& profile::is_row(rc, rv, a.cols as int, p)
    &&& forall|k: int| 0 <= k < rc.len() ==> #[trigger] rc[k] < c
    &&& forall|d: int|
        0 <= d < c ==> nt::cong(
            #[trigger] profile::coef(rc, rv, d),
            profile::entry_sum(a.entries@, r, d),
            p,
        )
}

/// Row `r` while column `c` is being read: as before below `c`, and the first `k`
/// entries of the column summed at `c`.
spec fn gathering(
    rc: Seq<u32>,
    rv: Seq<u64>,
    a: Triplets<'_>,
    b: Seq<(u32, i64)>,
    k: int,
    r: int,
    c: int,
    p: int,
) -> bool {
    &&& profile::is_row(rc, rv, a.cols as int, p)
    &&& forall|i: int| 0 <= i < rc.len() ==> #[trigger] rc[i] <= c
    &&& forall|d: int|
        0 <= d < c ==> nt::cong(
            #[trigger] profile::coef(rc, rv, d),
            profile::entry_sum(a.entries@, r, d),
            p,
        )
    &&& nt::cong(profile::coef(rc, rv, c), col_sum(b.take(k), r), p)
}

/// The rows of the matrix, columns ascending; a sum that vanishes stays listed.
fn gather_rows(a: Triplets<'_>, by_col: &Vec<Vec<(u32, i64)>>, p: u64) -> (rows: (
    Vec<Vec<u32>>,
    Vec<Vec<u64>>,
))
    requires
        p > 0,
        a.in_range(),
        a.cols <= u32::MAX,
        by_col@.len() == a.cols,
        forall|c: int, r: int|
            0 <= c < a.cols ==> #[trigger] col_sum(by_col@[c]@, r) == profile::entry_sum(
                a.entries@,
                r,
                c,
            ),
        forall|c: int, k: int|
            0 <= c < a.cols && 0 <= k < by_col@[c]@.len() ==> (#[trigger] by_col@[c]@[k]).0 < a.rows,
    ensures
        rows.0@.len() == a.rows,
        rows.1@.len() == a.rows,
        forall|r: int|
            0 <= r < a.rows ==> gathered(
                (#[trigger] rows.0@[r])@,
                rows.1@[r]@,
                a,
                r,
                a.cols as int,
                p as int,
            ),
{
    let ghost q: int = p as int;
    let mut rc: Vec<Vec<u32>> = Vec::new();
    let mut rv: Vec<Vec<u64>> = Vec::new();
    let mut r: usize = 0;
    while r < a.rows
        invariant
            r <= a.rows,
            rc@.len() == r,
            rv@.len() == r,
            forall|s: int|
                0 <= s < r ==> gathered((#[trigger] rc@[s])@, rv@[s]@, a, s, 0, q),
        decreases a.rows - r,
    {
        rc.push(Vec::new());
        rv.push(Vec::new());
        r += 1;
    }
    let mut c: usize = 0;
    while c < a.cols
        invariant
            p > 0,
            q == p as int,
            c <= a.cols,
            a.cols <= u32::MAX,
            by_col@.len() == a.cols,
            rc@.len() == a.rows,
            rv@.len() == a.rows,
            forall|c: int, r: int|
                0 <= c < a.cols ==> #[trigger] col_sum(by_col@[c]@, r) == profile::entry_sum(
                    a.entries@,
                    r,
                    c,
                ),
            forall|c: int, k: int|
                0 <= c < a.cols && 0 <= k < by_col@[c]@.len() ==> (#[trigger] by_col@[c]@[k]).0
                    < a.rows,
            forall|s: int|
                0 <= s < a.rows ==> gathered((#[trigger] rc@[s])@, rv@[s]@, a, s, c as int, q),
        decreases a.cols - c,
    {
        let bucket: &Vec<(u32, i64)> = &by_col[c];
        let ghost b = bucket@;
        proof {
            assert(b.take(0) =~= Seq::empty());
            assert forall|s: int| 0 <= s < a.rows implies gathering(
                (#[trigger] rc@[s])@,
                rv@[s]@,
                a,
                b,
                0,
                s,
                c as int,
                q,
            ) by {
                let idx = rc@[s]@;
                if profile::is_pivot(idx, c as int) {
                    let k: int = choose|k: int| 0 <= k < idx.len() && #[trigger] idx[k] == c as int;
                    assert(idx[k] < c);
                }
                store::lemma_coef_absent(idx, rv@[s]@, c as int);
                nt::cong_refl(0, q);
            }
        }
        let mut k: usize = 0;
        while k < bucket.len()
            invariant
                p > 0,
                q == p as int,
                c < a.cols,
                a.cols <= u32::MAX,
                b == bucket@,
                k <= b.len(),
                rc@.len() == a.rows,
                rv@.len() == a.rows,
                forall|k: int| 0 <= k < b.len() ==> (#[trigger] b[k]).0 < a.rows,
                forall|s: int|
                    0 <= s < a.rows ==> gathering(
                        (#[trigger] rc@[s])@,
                        rv@[s]@,
                        a,
                        b,
                        k as int,
                        s,
                        c as int,
                        q,
                    ),
            decreases b.len() - k,
        {
            let e: (u32, i64) = bucket[k];
            assert(b[k as int].0 < a.rows);
            let r: usize = e.0 as usize;
            let w: u64 = residue(e.1, p);
            let ghost rc1 = rc@;
            let ghost rv1 = rv@;
            assert(gathering(rc@[r as int]@, rv@[r as int]@, a, b, k as int, r as int, c as int, q));
            add_entry(&mut rc[r], &mut rv[r], c as u32, w, p, Ghost(a.cols as int));
            proof {
                let cut = b.take(k + 1);
                assert(cut.drop_last() =~= b.take(k as int));
                assert(cut.last() == e);
                assert forall|s: int| 0 <= s < a.rows implies gathering(
                    (#[trigger] rc@[s])@,
                    rv@[s]@,
                    a,
                    b,
                    k + 1,
                    s,
                    c as int,
                    q,
                ) by {
                    assert(gathering(rc1[s]@, rv1[s]@, a, b, k as int, s, c as int, q));
                    if s == r {
                        let x: int = profile::coef(rc1[s]@, rv1[s]@, c as int);
                        nt::cong_mod(x + w, q);
                        nt::cong_mod(e.1 as int, q);
                        nt::cong_plus(x, col_sum(b.take(k as int), s), w as int, e.1 as int, q);
                        nt::cong_trans((x + w) % q, x + w, col_sum(cut, s), q);
                        assert forall|d: int| 0 <= d < c implies nt::cong(
                            #[trigger] profile::coef(rc@[s]@, rv@[s]@, d),
                            profile::entry_sum(a.entries@, s, d),
                            q,
                        ) by {
                            assert(nt::cong(
                                profile::coef(rc1[s]@, rv1[s]@, d),
                                profile::entry_sum(a.entries@, s, d),
                                q,
                            ));
                        }
                    } else {
                        assert(rc@[s] == rc1[s]);
                        assert(rv@[s] == rv1[s]);
                    }
                }
            }
            k += 1;
        }
        proof {
            assert(b.take(k as int) =~= b);
            assert forall|s: int| 0 <= s < a.rows implies gathered(
                (#[trigger] rc@[s])@,
                rv@[s]@,
                a,
                s,
                c + 1,
                q,
            ) by {
                assert(gathering(rc@[s]@, rv@[s]@, a, b, k as int, s, c as int, q));
                assert(col_sum(by_col@[c as int]@, s) == profile::entry_sum(
                    a.entries@,
                    s,
                    c as int,
                ));
            }
        }
        c += 1;
    }
    (rc, rv)
}

/// The row without its zeros.
pub fn drop_zeros(rc: &Vec<u32>, rv: &Vec<u64>, Ghost(n): Ghost<int>, Ghost(p): Ghost<int>) -> (out: (
    Vec<u32>,
    Vec<u64>,
))
    requires
        profile::is_row(rc@, rv@, n, p),
    ensures
        profile::is_sparse(out.0@, out.1@, n, p),
        forall|j: int|
            #[trigger] profile::coef(out.0@, out.1@, j) == profile::coef(rc@, rv@, j),
{
    let mut cols: Vec<u32> = Vec::new();
    let mut vals: Vec<u64> = Vec::new();
    let mut k: usize = 0;
    proof {
        assert(rc@.take(0) =~= Seq::empty());
    }
    while k < rc.len()
        invariant
            k <= rc@.len(),
            profile::is_row(rc@, rv@, n, p),
            profile::is_sparse(cols@, vals@, n, p),
            forall|i: int, j: int|
                0 <= i < cols@.len() && k <= j < rc@.len() ==> #[trigger] cols@[i]
                    < #[trigger] rc@[j],
            forall|j: int|
                #[trigger] profile::coef(cols@, vals@, j) == profile::coef(
                    rc@.take(k as int),
                    rv@.take(k as int),
                    j,
                ),
        decreases rc@.len() - k,
    {
        let ghost cols1 = cols@;
        let ghost vals1 = vals@;
        let ghost a = rc@.take(k as int);
        let ghost b = rv@.take(k as int);
        let ghost c: u32 = rc@[k as int];
        let ghost v: u64 = rv@[k as int];
        proof {
            assert(rc@.take(k + 1) =~= a.push(c));
            assert(rv@.take(k + 1) =~= b.push(v));
            assert forall|i: int| 0 <= i < a.len() implies #[trigger] a[i] < c by {
                assert(rc@[i] < rc@[k as int]);
            }
            assert forall|j: int| #[trigger] profile::coef(a.push(c), b.push(v), j) == if j == c {
                v as int
            } else {
                profile::coef(a, b, j)
            } by {
                store::lemma_coef_push(a, b, c, v, j);
            }
        }
        if rv[k] != 0 {
            cols.push(rc[k]);
            vals.push(rv[k]);
            proof {
                assert forall|j: int| #[trigger] profile::coef(cols@, vals@, j) == profile::coef(
                    rc@.take(k + 1),
                    rv@.take(k + 1),
                    j,
                ) by {
                    store::lemma_coef_push(cols1, vals1, c, v, j);
                    assert(profile::coef(cols1, vals1, j) == profile::coef(a, b, j));
                }
                store::lemma_coef_push(cols1, vals1, c, v, 0);
                assert forall|i: int, j: int|
                    0 <= i < cols@.len() && k + 1 <= j < rc@.len() implies #[trigger] cols@[i]
                    < #[trigger] rc@[j] by {
                    if i < cols1.len() {
                        assert(cols@[i] == cols1[i]);
                    } else {
                        assert(rc@[k as int] < rc@[j]);
                    }
                }
            }
        } else {
            proof {
                assert forall|j: int| #[trigger] profile::coef(cols@, vals@, j) == profile::coef(
                    rc@.take(k + 1),
                    rv@.take(k + 1),
                    j,
                ) by {
                    assert(profile::coef(cols1, vals1, j) == profile::coef(a, b, j));
                    if j == c {
                        if profile::is_pivot(a, j) {
                            let i: int = choose|i: int| 0 <= i < a.len() && #[trigger] a[i] == j;
                            assert(a[i] < c);
                        }
                        store::lemma_coef_absent(a, b, j);
                    }
                }
            }
        }
        k += 1;
    }
    proof {
        assert(rc@.take(k as int) =~= rc@);
        assert(rv@.take(k as int) =~= rv@);
    }
    (cols, vals)
}

/// Are two rows equal, entry for entry?
fn same_row(c1: &Vec<u32>, v1: &Vec<u64>, c2: &Vec<u32>, v2: &Vec<u64>) -> (res: bool)
    requires
        c1@.len() == v1@.len(),
        c2@.len() == v2@.len(),
    ensures
        res <==> c1@ == c2@ && v1@ == v2@,
{
    if c1.len() != c2.len() {
        return false;
    }
    let mut k: usize = 0;
    while k < c1.len()
        invariant
            k <= c1@.len(),
            c1@.len() == c2@.len(),
            c1@.len() == v1@.len(),
            c2@.len() == v2@.len(),
            forall|i: int| 0 <= i < k ==> #[trigger] c1@[i] == c2@[i],
            forall|i: int| 0 <= i < k ==> #[trigger] v1@[i] == v2@[i],
        decreases c1@.len() - k,
    {
        if c1[k] != c2[k] || v1[k] != v2[k] {
            return false;
        }
        k += 1;
    }
    proof {
        assert(c1@ =~= c2@);
        assert(v1@ =~= v2@);
    }
    true
}

/// The key of the first `k` entries of a row.
spec fn key_upto(cols: Seq<u32>, vals: Seq<u64>, k: int) -> u64
    decreases k,
{
    if k <= 0 {
        0xcbf2_9ce4_8422_2325
    } else {
        let h = (key_upto(cols, vals, k - 1) ^ cols[k - 1] as u64).wrapping_mul(
            0x0000_0100_0000_01b3,
        );
        (h ^ vals[k - 1]).wrapping_mul(0x0000_0100_0000_01b3)
    }
}

/// A key under which equal rows meet.
fn row_key(cols: &Vec<u32>, vals: &Vec<u64>) -> (key: u64)
    requires
        cols@.len() == vals@.len(),
    ensures
        key == key_upto(cols@, vals@, cols@.len() as int),
{
    let mut h: u64 = 0xcbf2_9ce4_8422_2325;
    let mut k: usize = 0;
    while k < cols.len()
        invariant
            k <= cols@.len(),
            cols@.len() == vals@.len(),
            h == key_upto(cols@, vals@, k as int),
        decreases cols@.len() - k,
    {
        h = (h ^ cols[k] as u64).wrapping_mul(0x0000_0100_0000_01b3);
        h = (h ^ vals[k]).wrapping_mul(0x0000_0100_0000_01b3);
        k += 1;
    }
    h
}

/// The original rows of the stored ones.
pub open spec fn originals(st: &RowStore) -> Seq<int> {
    Seq::new(st.orig@.len(), |s: int| st.orig@[s] as int)
}

/// The row listed under the key of its contents.
spec fn is_keyed(seen: Map<u64, Vec<usize>>, st: &RowStore, s: int) -> bool {
    let key = key_upto(st.cols@[s]@, st.vals@[s]@, st.cols@[s]@.len() as int);
    seen.contains_key(key) && seen[key]@.contains(s as usize)
}

/// A stored row is the residues of the row it stands for.
proof fn lemma_residue_row(cols: Seq<u32>, vals: Seq<u64>, a: Triplets<'_>, r: int, p: int)
    requires
        p > 1,
        0 <= r < a.rows,
        profile::is_sparse(cols, vals, a.cols as int, p),
        forall|c: int|
            0 <= c < a.cols ==> nt::cong(
                #[trigger] profile::coef(cols, vals, c),
                profile::entry_sum(a.entries@, r, c),
                p,
            ),
    ensures
        profile::expand(cols, vals, a.cols as int) == fill::residues(
            a.mat(),
            a.cols as int,
            p,
        )[r],
{
    let n: int = a.cols as int;
    let want: Seq<int> = fill::residues(a.mat(), n, p)[r];
    assert forall|c: int| 0 <= c < n implies #[trigger] profile::expand(cols, vals, n)[c]
        == want[c] by {
        let x: int = profile::coef(cols, vals, c);
        let y: int = profile::entry_sum(a.entries@, r, c);
        assert(nt::cong(x, y, p));
        profile::lemma_coef_range(cols, vals, n, p, c);
        nt::cong_mod(y, p);
        nt::cong_sym(y % p, y, p);
        nt::cong_trans(x, y, y % p, p);
        nt::cong_small(x, y % p, p);
        assert(a.mat()[r][c] == y);
    }
    assert(profile::expand(cols, vals, n) =~= want);
}

/// Rows of one matrix with the same residues are the same sparse row.
proof fn lemma_same_sparse(
    c1: Seq<u32>,
    v1: Seq<u64>,
    c2: Seq<u32>,
    v2: Seq<u64>,
    n: int,
    p: int,
)
    requires
        profile::is_sparse(c1, v1, n, p),
        profile::is_sparse(c2, v2, n, p),
        profile::expand(c1, v1, n) == profile::expand(c2, v2, n),
    ensures
        c1 == c2,
        v1 == v2,
{
    assert forall|c: int| #[trigger] profile::is_pivot(c1, c) <==> profile::is_pivot(c2, c) by {
        profile::lemma_coef_nonzero(c1, v1, n, p, c);
        profile::lemma_coef_nonzero(c2, v2, n, p, c);
        if 0 <= c < n {
            assert(profile::expand(c1, v1, n)[c] == profile::coef(c1, v1, c));
            assert(profile::expand(c2, v2, n)[c] == profile::coef(c2, v2, c));
        } else {
            if profile::is_pivot(c1, c) {
                let k: int = choose|k: int| 0 <= k < c1.len() && #[trigger] c1[k] == c;
                assert(c1[k] < n);
            }
            if profile::is_pivot(c2, c) {
                let k: int = choose|k: int| 0 <= k < c2.len() && #[trigger] c2[k] == c;
                assert(c2[k] < n);
            }
        }
    }
    profile::lemma_ascending_unique(c1, c2);
    assert forall|k: int| 0 <= k < v1.len() implies v1[k] == v2[k] by {
        profile::lemma_coef_listed(c1, v1, k);
        profile::lemma_coef_listed(c2, v2, k);
        assert(c1[k] < n);
        let c: int = c1[k] as int;
        assert(profile::expand(c1, v1, n)[c] == profile::coef(c1, v1, c));
        assert(profile::expand(c2, v2, n)[c] == profile::coef(c2, v2, c));
    }
    assert(v1 =~= v2);
}

/// Stored row `s` is, modulo `p`, row `r` of the matrix.
pub open spec fn stands_for(st: &RowStore, s: int, a: Triplets<'_>, r: int, p: int) -> bool {
    forall|c: int|
        0 <= c < a.cols ==> nt::cong(
            #[trigger] st.row(s, a.cols as int)[c],
            profile::entry_sum(a.entries@, r, c),
            p,
        )
}

/// Row `r` of the matrix is zero modulo `p`.
pub open spec fn zero_row(a: Triplets<'_>, r: int, p: int) -> bool {
    forall|c: int|
        0 <= c < a.cols ==> nt::cong(#[trigger] profile::entry_sum(a.entries@, r, c), 0, p)
}

/// Some stored row is, modulo `p`, row `r` of the matrix.
pub open spec fn is_stored(st: &RowStore, a: Triplets<'_>, r: int, p: int) -> bool {
    exists|s: int| 0 <= s < st.cols@.len() && #[trigger] stands_for(st, s, a, r, p)
}

/// The store holds the first `m` rows of the matrix modulo `p`: each stored row is
/// the row it names, and each row is zero or stored.
pub open spec fn stores(st: &RowStore, a: Triplets<'_>, m: int, p: int) -> bool {
    &&& forall|s: int|
        0 <= s < st.cols@.len() ==> (#[trigger] st.orig@[s]) < m && stands_for(
            st,
            s,
            a,
            st.orig@[s] as int,
            p,
        )
    &&& forall|s: int, t: int| 0 <= s < t < st.orig@.len() ==> st.orig@[s] < st.orig@[t]
    &&& forall|r: int| 0 <= r < m ==> zero_row(a, r, p) || #[trigger] is_stored(st, a, r, p)
}

/// Adding a row to the store.
proof fn lemma_stores_push(
    st: &RowStore,
    st2: &RowStore,
    a: Triplets<'_>,
    m: int,
    p: int,
    cols: Vec<u32>,
    vals: Vec<u64>,
)
    requires
        p > 0,
        stores(st, a, m, p),
        st.vals@.len() == st.cols@.len(),
        st.orig@.len() == st.cols@.len(),
        st2.cols@ == st.cols@.push(cols),
        st2.vals@ == st.vals@.push(vals),
        st2.orig@ == st.orig@.push(m as u32),
        0 <= m <= u32::MAX,
        forall|c: int|
            0 <= c < a.cols ==> nt::cong(
                #[trigger] profile::coef(cols@, vals@, c),
                profile::entry_sum(a.entries@, m, c),
                p,
            ),
    ensures
        stores(st2, a, m + 1, p),
{
    let k: int = st.cols@.len() as int;
    let n: int = a.cols as int;
    assert(stands_for(st2, k, a, m, p)) by {
        assert forall|c: int| 0 <= c < n implies nt::cong(
            #[trigger] st2.row(k, n)[c],
            profile::entry_sum(a.entries@, m, c),
            p,
        ) by {
            assert(st2.row(k, n)[c] == profile::coef(cols@, vals@, c));
        }
    }
    assert forall|s: int, r: int| 0 <= s < k && #[trigger] stands_for(st, s, a, r, p) implies stands_for(
        st2,
        s,
        a,
        r,
        p,
    ) by {
        assert(st2.row(s, n) == st.row(s, n));
    }
    assert forall|s: int| 0 <= s < st2.cols@.len() implies (#[trigger] st2.orig@[s]) < m + 1
        && stands_for(st2, s, a, st2.orig@[s] as int, p) by {
        if s < k {
            assert(st.orig@[s] < m);
            assert(stands_for(st, s, a, st.orig@[s] as int, p));
        }
    }
    assert forall|r: int| 0 <= r < m + 1 implies zero_row(a, r, p) || #[trigger] is_stored(
        st2,
        a,
        r,
        p,
    ) by {
        if r < m {
            assert(zero_row(a, r, p) || is_stored(st, a, r, p));
            if is_stored(st, a, r, p) {
                let s: int = choose|s: int|
                    0 <= s < st.cols@.len() && #[trigger] stands_for(st, s, a, r, p);
                assert(stands_for(st2, s, a, r, p));
            }
        }
    }
    assert forall|s: int, t: int| 0 <= s < t < st2.orig@.len() implies st2.orig@[s]
        < st2.orig@[t] by {
        if t == k {
            assert(st.orig@[s] < m);
        }
    }
}

/// Accumulates triplets into sorted sparse rows modulo `p`, dropping zero entries,
/// zero rows and repeated rows.
pub fn build_rows(a: Triplets<'_>, p: u64, max_entries: usize) -> (res: Result<
    RowStore,
    NullspaceError,
>)
    requires
        p > 1,
        a.in_range(),
        a.cols <= u32::MAX,
    ensures
        res matches Ok(st) ==> st.wf(a.cols as int, p as int) && stores(
            &st,
            a,
            a.rows as int,
            p as int,
        ) && st.live_entries <= max_entries && st.cols@.len() <= a.rows,
        res matches Err(e) ==> super::is_fill_refusal(e, max_entries) && a.rows * a.cols > max_entries,
        ({
            let all = fill::residues(a.mat(), a.cols as int, p as int);
            let end = fill::gather_upto(all, a.rows as int, max_entries as int);
            match res {
                Ok(st) => end == fill::Gathered::Rows(originals(&st)) && st.rows(a.cols as int)
                    == fill::select(all, originals(&st)),
                Err(e) => end matches fill::Gathered::Over(live) && e == super::fill_refusal(
                    live,
                    0,
                    1,
                    max_entries,
                ),
            }
        }),
{
    let ghost q: int = p as int;
    let ghost n: int = a.cols as int;
    let by_col: Vec<Vec<(u32, i64)>> = bucket_columns(a);
    let (rc, rv): (Vec<Vec<u32>>, Vec<Vec<u64>>) = gather_rows(a, &by_col, p);
    let mut st: RowStore = RowStore {
        cols: Vec::new(),
        vals: Vec::new(),
        orig: Vec::new(),
        live_entries: 0,
    };
    let mut seen: HashMap<u64, Vec<usize>> = HashMap::new();
    let mut r: usize = 0;
    let ghost all = fill::residues(a.mat(), n, q);
    proof {
        assert(originals(&st) =~= Seq::<int>::empty());
        assert(st.rows(n) =~= fill::select(all, originals(&st)));
    }
    while r < a.rows
        invariant
            p > 1,
            q == p as int,
            n == a.cols,
            a.in_range(),
            a.cols <= u32::MAX,
            r <= a.rows,
            rc@.len() == a.rows,
            rv@.len() == a.rows,
            forall|s: int|
                0 <= s < a.rows ==> gathered((#[trigger] rc@[s])@, rv@[s]@, a, s, n, q),
            st.wf(n, q),
            stores(&st, a, r as int, q),
            st.live_entries <= max_entries,
            st.cols@.len() <= r,
            all == fill::residues(a.mat(), n, q),
            fill::gather_upto(all, r as int, max_entries as int) == fill::Gathered::Rows(
                originals(&st),
            ),
            st.rows(n) == fill::select(all, originals(&st)),
            forall|s: int| 0 <= s < st.cols@.len() ==> #[trigger] is_keyed(seen@, &st, s),
            forall|key: u64, i: int|
                seen@.contains_key(key) && 0 <= i < seen@[key]@.len() ==> #[trigger] seen@[key]@[i]
                    < st.cols@.len(),
        decreases a.rows - r,
    {
        assert(gathered(rc@[r as int]@, rv@[r as int]@, a, r as int, n, q));
        let (cols, vals): (Vec<u32>, Vec<u64>) = drop_zeros(&rc[r], &rv[r], Ghost(n), Ghost(q));
        proof {
            assert forall|c: int| 0 <= c < n implies nt::cong(
                #[trigger] profile::coef(cols@, vals@, c),
                profile::entry_sum(a.entries@, r as int, c),
                q,
            ) by {
                assert(nt::cong(
                    profile::coef(rc@[r as int]@, rv@[r as int]@, c),
                    profile::entry_sum(a.entries@, r as int, c),
                    q,
                ));
            }
        }
        let ghost st0 = st;
        let ghost seen0 = seen@;
        let ghost ids = originals(&st);
        proof {
            lemma_residue_row(cols@, vals@, a, r as int, q);
            fill::lemma_entries(cols@, vals@, n, q);
            assert(fill::entries(all[r as int]) == cols@.len());
        }
        if cols.len() == 0 {
            proof {
                assert(zero_row(a, r as int, q)) by {
                    assert forall|c: int| 0 <= c < n implies nt::cong(
                        #[trigger] profile::entry_sum(a.entries@, r as int, c),
                        0,
                        q,
                    ) by {
                        assert(profile::coef(cols@, vals@, c) == 0);
                        nt::cong_sym(0, profile::entry_sum(a.entries@, r as int, c), q);
                    }
                }
            }
        } else {
            let key: u64 = row_key(&cols, &vals);
            let mut bucket: Vec<usize> = Vec::new();
            match seen.remove(&key) {
                Some(b) => {
                    bucket = b;
                },
                None => {},
            }
            let mut dup: bool = false;
            let mut i: usize = 0;
            while i < bucket.len() && !dup
                invariant
                    i <= bucket@.len(),
                    st == st0,
                    st.wf(n, q),
                    profile::is_sparse(cols@, vals@, n, q),
                    forall|k: int| 0 <= k < bucket@.len() ==> #[trigger] bucket@[k] < st.cols@.len(),
                    dup ==> exists|s: int|
                        0 <= s < st.cols@.len() && (#[trigger] st.cols@[s])@ == cols@
                            && st.vals@[s]@ == vals@,
                    !dup ==> forall|k: int|
                        0 <= k < i ==> !(st.cols@[#[trigger] bucket@[k] as int]@ == cols@
                            && st.vals@[bucket@[k] as int]@ == vals@),
                decreases bucket@.len() - i,
            {
                let prev: usize = bucket[i];
                assert(st.row_wf(prev as int, n, q));
                if same_row(&st.cols[prev], &st.vals[prev], &cols, &vals) {
                    assert(st.cols@[prev as int]@ == cols@);
                    dup = true;
                }
                i += 1;
            }
            if dup {
                proof {
                    let s: int = choose|s: int|
                        0 <= s < st.cols@.len() && (#[trigger] st.cols@[s])@ == cols@
                            && st.vals@[s]@ == vals@;
                    assert(stands_for(&st, s, a, r as int, q)) by {
                        assert forall|c: int| 0 <= c < n implies nt::cong(
                            #[trigger] st.row(s, n)[c],
                            profile::entry_sum(a.entries@, r as int, c),
                            q,
                        ) by {
                            assert(st.row(s, n)[c] == profile::coef(cols@, vals@, c));
                        }
                    }
                    assert(is_stored(&st, a, r as int, q));
                    assert(st.rows(n)[s] == all[ids[s]]);
                    assert(fill::repeats(all, ids, r as int));
                }
                seen.insert(key, bucket);
                proof {
                    assert forall|s: int| 0 <= s < st.cols@.len() implies #[trigger] is_keyed(
                        seen@,
                        &st,
                        s,
                    ) by {
                        assert(is_keyed(seen0, &st, s));
                    }
                }
            } else {
                let room: usize = max_entries - st.live_entries;
                let ghost ids2 = ids.push(r as int);
                proof {
                    assert(!fill::repeats(all, ids, r as int)) by {
                        if fill::repeats(all, ids, r as int) {
                            let s: int = choose|s: int|
                                0 <= s < ids.len() && all[#[trigger] ids[s]] == all[r as int];
                            assert(st.rows(n)[s] == all[ids[s]]);
                            assert(st.row_wf(s, n, q));
                            lemma_same_sparse(
                                st.cols@[s]@,
                                st.vals@[s]@,
                                cols@,
                                vals@,
                                n,
                                q,
                            );
                            assert(is_keyed(seen0, &st, s));
                            let k: int = choose|k: int|
                                0 <= k < seen0[key]@.len() && seen0[key]@[k] == s as usize;
                            assert(bucket@[k] == s as usize);
                        }
                    }
                    fill::lemma_live(&st, n, q);
                    assert(fill::select(all, ids2).drop_last() =~= st.rows(n));
                    assert(fill::select(all, ids2).last() == all[r as int]);
                    assert(fill::live(fill::select(all, ids2)) == st.live_entries + cols@.len());
                }
                if cols.len() > room {
                    proof {
                        fill::lemma_gather_over(
                            all,
                            r + 1,
                            a.rows as int,
                            max_entries as int,
                        );
                        assert forall|i: int| 0 <= i < st.cols@.len() implies (
                        #[trigger] st.cols@[i])@.len() <= n by {
                            assert(st.row_wf(i, n, q));
                            store::lemma_row_len(st.cols@[i]@, n);
                        }
                        store::lemma_total_bound(st.cols@, n);
                        store::lemma_row_len(cols@, n);
                        assert(st.cols@.len() * n + n <= a.rows * n) by (nonlinear_arith)
                            requires
                                st.cols@.len() + 1 <= a.rows,
                                n >= 0,
                        ;
                    }
                    return Err(
                        NullspaceError::FillBudget {
                            live_entries: st.live_entries.saturating_add(cols.len()),
                            max_entries,
                            pivots_done: 0,
                            phase: 1,
                        },
                    );
                }
                proof {
                    // A row with an entry has an index that an entry names.
                    lemma_named_row(a, r as int, cols@, vals@, n, q);
                }
                let ghost bucket0 = bucket@;
                bucket.push(st.cols.len());
                seen.insert(key, bucket);
                st.live_entries = st.live_entries + cols.len();
                let ghost cols0 = cols;
                let ghost vals0 = vals;
                st.cols.push(cols);
                st.vals.push(vals);
                st.orig.push(r as u32);
                proof {
                    assert(st.cols@.drop_last() =~= st0.cols@);
                    assert forall|i: int| 0 <= i < st.cols@.len() implies #[trigger] st.row_wf(
                        i,
                        n,
                        q,
                    ) by {
                        if i < st0.cols@.len() {
                            assert(st0.row_wf(i, n, q));
                        }
                    }
                    lemma_stores_push(&st0, &st, a, r as int, q, cols0, vals0);
                    assert(originals(&st) =~= ids2);
                    assert forall|s: int| 0 <= s < st.cols@.len() implies #[trigger] st.rows(n)[s]
                        == fill::select(all, ids2)[s] by {
                        if s < st0.cols@.len() {
                            assert(st0.rows(n)[s] == fill::select(all, ids)[s]);
                        }
                    }
                    assert(st.rows(n) =~= fill::select(all, ids2));
                    let last: int = st0.cols@.len() as int;
                    assert(seen@[key]@ == bucket0.push(last as usize));
                    assert forall|s: int| 0 <= s < st.cols@.len() implies #[trigger] is_keyed(
                        seen@,
                        &st,
                        s,
                    ) by {
                        if s < last {
                            assert(is_keyed(seen0, &st0, s));
                            let k2: u64 = key_upto(
                                st0.cols@[s]@,
                                st0.vals@[s]@,
                                st0.cols@[s]@.len() as int,
                            );
                            let i: int = choose|i: int|
                                0 <= i < seen0[k2]@.len() && seen0[k2]@[i] == s as usize;
                            if k2 == key {
                                assert(seen@[key]@[i] == s as usize);
                            } else {
                                assert(seen@[k2]@[i] == s as usize);
                            }
                        } else {
                            assert(seen@[key]@[bucket0.len() as int] == s as usize);
                        }
                    }
                }
            }
        }
        r += 1;
    }
    Ok(st)
}

/// A row that holds a nonzero residue is named by an entry, so its index fits a `u32`.
proof fn lemma_named_row(
    a: Triplets<'_>,
    r: int,
    cols: Seq<u32>,
    vals: Seq<u64>,
    n: int,
    p: int,
)
    requires
        p > 1,
        n == a.cols,
        cols.len() > 0,
        profile::is_sparse(cols, vals, n, p),
        forall|c: int|
            0 <= c < n ==> nt::cong(
                #[trigger] profile::coef(cols, vals, c),
                profile::entry_sum(a.entries@, r, c),
                p,
            ),
    ensures
        r <= u32::MAX,
{
    let c: int = cols[0] as int;
    profile::lemma_coef_listed(cols, vals, 0);
    assert(0 < vals[0] < p);
    assert(cols[0] < n);
    assert(nt::cong(profile::coef(cols, vals, c), profile::entry_sum(a.entries@, r, c), p));
    if profile::entry_sum(a.entries@, r, c) == 0 {
        nt::cong_small(vals[0] as int, 0, p);
    }
    lemma_entry_named(a.entries@, r, c);
}

proof fn lemma_entry_named(entries: Seq<(u32, u32, i64)>, r: int, c: int)
    requires
        profile::entry_sum(entries, r, c) != 0,
    ensures
        r <= u32::MAX,
    decreases entries.len(),
{
    if entries.len() > 0 {
        if entries.last().0 != r {
            lemma_entry_named(entries.drop_last(), r, c);
        }
    }
}

} // verus!
