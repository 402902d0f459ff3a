//! Dense row echelon form of a block of residues.

use super::fill;
use super::state;
use crate::linalg;
use crate::nt;
use crate::nullspace::arith::{invmod, mulmod};
use crate::nullspace::reference;
use crate::nullspace::reference::eliminate_row;
use vstd::prelude::*;

verus! {

/// The first row at or after place `row` with a nonzero entry in column `col`.
fn find_pivot(
    mat: &Vec<Vec<u64>>,
    order: &Vec<usize>,
    m: usize,
    n: usize,
    row: usize,
    col: usize,
) -> (res: Option<usize>)
    requires
        mat@.len() == m,
        order@.len() == m,
        forall|i: int| 0 <= i < m ==> (#[trigger] mat@[i])@.len() == n,
        forall|i: int| 0 <= i < m ==> #[trigger] order@[i] < m,
        row <= m,
        col < n,
    ensures
        res matches Some(k) ==> row <= k < m && mat@[order@[k as int] as int]@[col as int] != 0
            && forall|i: int|
            row <= i < k ==> mat@[#[trigger] order@[i] as int]@[col as int] == 0,
        res is None ==> forall|i: int|
            row <= i < m ==> mat@[#[trigger] order@[i] as int]@[col as int] == 0,
{
    let mut i: usize = row;
    while i < m
        invariant
            mat@.len() == m,
            order@.len() == m,
            forall|k: int| 0 <= k < m ==> (#[trigger] mat@[k])@.len() == n,
            forall|k: int| 0 <= k < m ==> #[trigger] order@[k] < m,
            row <= i <= m,
            col < n,
            forall|k: int| row <= k < i ==> mat@[#[trigger] order@[k] as int]@[col as int] == 0,
        decreases m - i,
    {
        if mat[order[i]][col] != 0 {
            return Some(i);
        }
        i += 1;
    }
    None
}

/// The state of the elimination between columns: the first `piv.len()` rows of the
/// order are pivot rows with pivots `piv`, all in columns below `col`.
pub open spec fn echelon_state(
    cur: Seq<Vec<u64>>,
    org: Seq<Seq<int>>,
    order: Seq<usize>,
    piv: Seq<usize>,
    m: int,
    n: int,
    col: int,
    p: int,
) -> bool {
    let row = piv.len();
    &&& linalg::elimination(
        reference::dense(cur),
        org,
        reference::done_rows(order, row as int),
        n,
        p,
    )
    &&& forall|i: int| 0 <= i < row ==> #[trigger] cur[order[i] as int]@[piv[i] as int] != 0
    &&& forall|i: int, j: int|
        0 <= i < row && i < j < m ==> #[trigger] cur[order[j] as int]@[piv[i] as int] == 0
    &&& forall|i: int, c: int|
        row <= i < m && 0 <= c < col ==> #[trigger] cur[order[i] as int]@[c] == 0
}

/// The pivots are columns below `col`.
pub open spec fn pivots_below(piv: Seq<usize>, col: int) -> bool {
    forall|i: int| 0 <= i < piv.len() ==> #[trigger] piv[i] < col
}

/// Exchanging two places of the row order at or after the pivot rows changes nothing
/// that the elimination has established.
proof fn lemma_echelon_reorder(
    cur: Seq<Vec<u64>>,
    org: Seq<Seq<int>>,
    order: Seq<usize>,
    order2: Seq<usize>,
    piv: Seq<usize>,
    m: int,
    n: int,
    col: int,
    k: int,
    p: int,
)
    requires
        echelon_state(cur, org, order, piv, m, n, col, p),
        order.len() == m,
        piv.len() <= k < m,
        order2 == order.update(piv.len() as int, order[k]).update(k, order[piv.len() as int]),
    ensures
        echelon_state(cur, org, order2, piv, m, n, col, p),
{
    let row: int = piv.len() as int;
    assert(reference::done_rows(order, row) =~= reference::done_rows(order2, row));
    assert forall|i: int| 0 <= i < row implies #[trigger] cur[order2[i] as int]@[piv[i] as int]
        != 0 by {
        assert(order2[i] == order[i]);
        assert(cur[order[i] as int]@[piv[i] as int] != 0);
    }
    assert forall|i: int, j: int| 0 <= i < row && i < j < m implies #[trigger] cur[order2[j] as int]@[piv[i] as int]
        == 0 by {
        let l: int = if j == row {
            k
        } else if j == k {
            row
        } else {
            j
        };
        assert(order2[j] == order[l]);
        assert(cur[order[l] as int]@[piv[i] as int] == 0);
    }
    assert forall|i: int, c: int| row <= i < m && 0 <= c < col implies #[trigger] cur[order2[i] as int]@[c]
        == 0 by {
        let l: int = if i == row {
            k
        } else if i == k {
            row
        } else {
            i
        };
        assert(order2[i] == order[l]);
        assert(cur[order[l] as int]@[c] == 0);
    }
}

/// What clearing a column below the pivot has done after the places before `k`: the
/// rows at the places after `row` and before `k` have lost their multiple of the pivot
/// row, and the others are unchanged.
spec fn clearing(
    cur: Seq<Vec<u64>>,
    now: Seq<Vec<u64>>,
    order: Seq<usize>,
    m: int,
    n: int,
    row: int,
    col: int,
    k: int,
    inv: u64,
    p: int,
) -> bool {
    &&& now.len() == m
    &&& forall|i: int| 0 <= i < m && (i <= row || k <= i) ==> now[#[trigger] order[i] as int]
        == cur[order[i] as int]
    &&& forall|i: int| row < i < k ==> now[#[trigger] order[i] as int]@.len() == n
    &&& forall|i: int, c: int|
        row < i < k && 0 <= c < n ==> #[trigger] now[order[i] as int]@[c] == if c < col {
            cur[order[i] as int]@[c] as int
        } else {
            (cur[order[i] as int]@[c] - (((cur[order[i] as int]@[col] * inv) % p)
                * cur[order[row] as int]@[c]) % p) % p
        }
}

/// Clears column `col` in the rows at the places after `row`.
fn clear_below(
    dm: &mut Vec<Vec<u64>>,
    order: &Vec<usize>,
    m: usize,
    n: usize,
    row: usize,
    col: usize,
    p: u64,
    Ghost(place): Ghost<Seq<int>>,
) -> (inv: u64)
    requires
        p > 1,
        reference::is_dense(old(dm)@, m as int, n as int, p as int),
        reference::is_order(order@, place, m as int),
        row < m,
        col < n,
    ensures
        reference::is_dense(final(dm)@, m as int, n as int, p as int),
        clearing(
            old(dm)@,
            final(dm)@,
            order@,
            m as int,
            n as int,
            row as int,
            col as int,
            m as int,
            inv,
            p as int,
        ),
        nt::is_prime(p as int) && !nt::cong(
            old(dm)@[order@[row as int] as int]@[col as int] as int,
            0,
            p as int,
        ) ==> nt::cong(inv * old(dm)@[order@[row as int] as int]@[col as int], 1, p as int),
{
    let ghost cur = dm@;
    let ghost q: int = p as int;
    let pivot: Vec<u64> = dm[order[row]].clone();
    assert(pivot@ =~= cur[order@[row as int] as int]@);
    let inv: u64 = invmod(pivot[col], p);
    let mut k: usize = row + 1;
    while k < m
        invariant
            p > 1,
            q == p as int,
            row < k <= m,
            col < n,
            reference::is_dense(cur, m as int, n as int, q),
            reference::is_order(order@, place, m as int),
            pivot@ == cur[order@[row as int] as int]@,
            clearing(
                cur,
                dm@,
                order@,
                m as int,
                n as int,
                row as int,
                col as int,
                k as int,
                inv,
                q,
            ),
        decreases m - k,
    {
        let t: usize = order[k];
        assert(dm@[order@[k as int] as int] == cur[t as int]);
        let x: u64 = dm[t][col];
        let ghost prev = dm@;
        let f: u64 = mulmod(x, inv, p);
        assert forall|c: int| 0 <= c < prev[t as int]@.len() implies #[trigger] prev[t as int]@[c] < p by {
            assert(cur[t as int]@[c] < p);
        }
        if x != 0 {
            eliminate_row(&mut dm[t], &pivot, col, f, p);
        }
        proof {
            let now = dm@;
            assert forall|s: int| 0 <= s < m && s != t implies #[trigger] now[s] == prev[s] by {}
            assert forall|c: int| 0 <= c < n implies #[trigger] now[t as int]@[c] == if c < col {
                cur[t as int]@[c] as int
            } else {
                (cur[t as int]@[c] - (((cur[t as int]@[col as int] * inv) % q) * pivot@[c]) % q) % q
            } by {
                if x == 0 && c >= col {
                    assert(0 * inv == 0) by (nonlinear_arith);
                    nt::cong_mod(0, q);
                    nt::cong_small(0int % q, 0, q);
                    assert(0 * pivot@[c] == 0) by (nonlinear_arith);
                    assert(cur[t as int]@[c] < p);
                    nt::cong_mod(cur[t as int]@[c] as int, q);
                    nt::cong_small(cur[t as int]@[c] as int % q, cur[t as int]@[c] as int, q);
                }
            }
            assert forall|i: int| 0 <= i < m && (i <= row || k + 1 <= i) implies now[#[trigger] order@[i] as int]
                == cur[order@[i] as int] by {
                assert(place[order@[i] as int] == i && place[t as int] == k);
                assert(prev[order@[i] as int] == cur[order@[i] as int]);
            }
            assert forall|i: int, c: int|
                row < i < k + 1 && 0 <= c < n implies #[trigger] now[order@[i] as int]@[c] == if c
                < col {
                cur[order@[i] as int]@[c] as int
            } else {
                (cur[order@[i] as int]@[c] - (((cur[order@[i] as int]@[col as int] * inv) % q)
                    * cur[order@[row as int] as int]@[c]) % q) % q
            } by {
                if i < k {
                    assert(place[order@[i] as int] == i && place[t as int] == k);
                    assert(now[order@[i] as int] == prev[order@[i] as int]);
                    assert(prev[order@[i] as int]@[c] == if c < col {
                        cur[order@[i] as int]@[c] as int
                    } else {
                        (cur[order@[i] as int]@[c] - (((cur[order@[i] as int]@[col as int] * inv)
                            % q) * cur[order@[row as int] as int]@[c]) % q) % q
                    });
                } else {
                    assert(now[t as int]@[c] == now[order@[i] as int]@[c]);
                }
            }
            assert forall|i: int| row < i < k + 1 implies now[#[trigger] order@[i] as int]@.len()
                == n by {
                if i < k {
                    assert(place[order@[i] as int] == i && place[t as int] == k);
                    assert(prev[order@[i] as int]@.len() == n);
                }
            }
        }
        k += 1;
    }
    proof {
        let now = dm@;
        assert forall|s: int| 0 <= s < m implies (#[trigger] now[s])@.len() == n by {
            let i: int = place[s];
            assert(order@[i] == s);
            if i <= row {
                assert(now[order@[i] as int] == cur[order@[i] as int]);
            } else {
                assert(now[order@[i] as int]@.len() == n);
            }
        }
        assert forall|s: int, c: int| 0 <= s < m && 0 <= c < n implies #[trigger] now[s]@[c] < p by {
            let i: int = place[s];
            assert(order@[i] == s);
            assert(cur[s]@[c] < p);
            if i <= row {
                assert(now[order@[i] as int] == cur[order@[i] as int]);
            } else {
                assert(now[order@[i] as int]@[c] == if c < col {
                    cur[order@[i] as int]@[c] as int
                } else {
                    (cur[order@[i] as int]@[c] - (((cur[order@[i] as int]@[col as int] * inv) % q)
                        * cur[order@[row as int] as int]@[c]) % q) % q
                });
                nt::cong_mod(
                    cur[order@[i] as int]@[c] - (((cur[order@[i] as int]@[col as int] * inv) % q)
                        * cur[order@[row as int] as int]@[c]) % q,
                    q,
                );
            }
        }
    }
    inv
}

/// Clearing a column below its pivot takes the elimination to the next column.
proof fn lemma_echelon_step(
    cur: Seq<Vec<u64>>,
    nxt: Seq<Vec<u64>>,
    org: Seq<Seq<int>>,
    order: Seq<usize>,
    place: Seq<int>,
    piv: Seq<usize>,
    m: int,
    n: int,
    col: usize,
    inv: u64,
    p: int,
)
    requires
        nt::is_prime(p),
        reference::is_dense(cur, m, n, p),
        reference::is_dense(nxt, m, n, p),
        org.len() == m,
        linalg::shaped(org, n),
        reference::is_order(order, place, m),
        echelon_state(cur, org, order, piv, m, n, col as int, p),
        pivots_below(piv, col as int),
        piv.len() < m,
        col < n,
        cur[order[piv.len() as int] as int]@[col as int] != 0,
        clearing(cur, nxt, order, m, n, piv.len() as int, col as int, m, inv, p),
        !nt::cong(cur[order[piv.len() as int] as int]@[col as int] as int, 0, p) ==> nt::cong(
            inv * cur[order[piv.len() as int] as int]@[col as int],
            1,
            p,
        ),
    ensures
        echelon_state(nxt, org, order, piv.push(col), m, n, col + 1, p),
{
    let row: int = piv.len() as int;
    let r: int = order[row] as int;
    let done: Seq<int> = reference::done_rows(order, row);
    let piv2: Seq<usize> = piv.push(col);
    let a: int = cur[r]@[col as int] as int;
    assert(cur[r]@[col as int] < p);
    if nt::cong(a, 0, p) {
        nt::cong_small(a, 0, p);
    }
    assert(nxt[order[row] as int] == cur[order[row] as int]);
    let fs: Seq<int> = Seq::new(
        m as nat,
        |t: int|
            if place[t] > row {
                (cur[t]@[col as int] * inv) % p
            } else {
                0
            },
    );
    // Every row is the old one less a multiple of the pivot row.
    assert forall|t: int| 0 <= t < m && t != r implies linalg::is_axpy(
        #[trigger] reference::dense(nxt)[t],
        reference::dense(cur)[t],
        reference::dense(nxt)[r],
        fs[t],
        p,
    ) by {
        let i: int = place[t];
        assert(order[i] == t);
        assert forall|j: int| 0 <= j < n implies nt::cong(
            #[trigger] reference::dense(nxt)[t][j],
            reference::dense(cur)[t][j] - fs[t] * reference::dense(nxt)[r][j],
            p,
        ) by {
            let b: int = cur[t]@[j] as int;
            let d: int = cur[r]@[j] as int;
            let f: int = fs[t];
            assert(reference::dense(nxt)[t][j] == nxt[t]@[j]);
            assert(reference::dense(cur)[t][j] == b);
            assert(reference::dense(nxt)[r][j] == d);
            if i > row {
                assert(nxt[order[i] as int]@[j] == if j < col {
                    cur[order[i] as int]@[j] as int
                } else {
                    (cur[order[i] as int]@[j] - (((cur[order[i] as int]@[col as int] * inv) % p)
                        * cur[order[row] as int]@[j]) % p) % p
                });
                if j < col {
                    assert(cur[order[row] as int]@[j] == 0);
                    assert(f * 0 == 0) by (nonlinear_arith);
                    nt::cong_refl(b, p);
                } else {
                    nt::cong_mod(f * d, p);
                    nt::cong_refl(b, p);
                    nt::cong_minus(b, b, (f * d) % p, f * d, p);
                    nt::cong_mod(b - (f * d) % p, p);
                    nt::cong_trans(nxt[t]@[j] as int, b - (f * d) % p, b - f * d, p);
                }
            } else {
                assert(nxt[order[i] as int] == cur[order[i] as int]);
                assert(0 * d == 0) by (nonlinear_arith);
                nt::cong_refl(b, p);
            }
        }
    }
    assert(linalg::is_scaled(reference::dense(nxt)[r], reference::dense(cur)[r], 1, p)) by {
        assert forall|j: int| 0 <= j < n implies nt::cong(
            #[trigger] reference::dense(nxt)[r][j],
            1 * reference::dense(cur)[r][j],
            p,
        ) by {
            nt::cong_refl(cur[r]@[j] as int, p);
        }
    }
    assert(reference::done_rows(order, row + 1) =~= done.push(r));
    assert(!done.contains(r)) by {
        if done.contains(r) {
            let k: int = choose|k: int| 0 <= k < done.len() && done[k] == r;
            assert(order[k] == order[row]);
            assert(place[order[k] as int] == k);
        }
    }
    assert forall|k: int| 0 <= k < done.len() implies 0 <= #[trigger] done[k] < m by {
        assert(order[k] < m);
    }
    nt::cong_refl(1, p);
    assert(1 * 1 == 1int);
    linalg::lemma_elimination_step(
        reference::dense(cur),
        reference::dense(nxt),
        org,
        done,
        r,
        1,
        1,
        fs,
        n,
        p,
    );
    assert forall|i: int| 0 <= i < row + 1 implies #[trigger] nxt[order[i] as int]@[piv2[i] as int]
        != 0 by {
        assert(nxt[order[i] as int] == cur[order[i] as int]);
        if i < row {
            assert(piv2[i] == piv[i]);
            assert(cur[order[i] as int]@[piv[i] as int] != 0);
        }
    }
    assert forall|i: int, j: int|
        0 <= i < row + 1 && i < j < m implies #[trigger] nxt[order[j] as int]@[piv2[i] as int]
        == 0 by {
        if i < row {
            assert(piv2[i] == piv[i]);
            assert(piv[i] < col);
            assert(cur[order[j] as int]@[piv[i] as int] == 0);
            if j <= row {
                assert(nxt[order[j] as int] == cur[order[j] as int]);
            } else {
                assert(nxt[order[j] as int]@[piv[i] as int] == cur[order[j] as int]@[piv[i] as int]);
            }
        } else {
            lemma_cleared(cur[order[j] as int]@[col as int] as int, a, inv as int, p);
            assert(nxt[order[j] as int]@[col as int] == (cur[order[j] as int]@[col as int] - (((
            cur[order[j] as int]@[col as int] * inv) % p) * cur[order[row] as int]@[col as int])
                % p) % p);
        }
    }
    assert forall|i: int, c: int| row + 1 <= i < m && 0 <= c < col + 1 implies #[trigger] nxt[order[i] as int]@[c]
        == 0 by {
        if c < col {
            assert(cur[order[i] as int]@[c] == 0);
            assert(nxt[order[i] as int]@[c] == cur[order[i] as int]@[c]);
        } else {
            assert(nxt[order[i] as int]@[piv2[row] as int] == 0);
        }
    }
}

/// Taking `b / a` times `a` from `b` leaves zero.
proof fn lemma_cleared(b: int, a: int, inv: int, p: int)
    requires
        p > 1,
        nt::cong(inv * a, 1, p),
    ensures
        (b - (((b * inv) % p) * a) % p) % p == 0,
{
    let f: int = (b * inv) % p;
    nt::cong_mod(b * inv, p);
    nt::cong_refl(a, p);
    nt::cong_times(f, b * inv, a, a, p);
    assert((b * inv) * a == b * (inv * a)) by (nonlinear_arith);
    nt::cong_scale(b, inv * a, 1, p);
    assert(b * 1 == b);
    nt::cong_trans(f * a, b * (inv * a), b, p);
    nt::cong_mod(f * a, p);
    nt::cong_trans((f * a) % p, f * a, b, p);
    nt::cong_refl(b, p);
    nt::cong_minus(b, b, (f * a) % p, b, p);
}

/// The block that a dense matrix and a row order stand for.
pub open spec fn block(dm: Seq<Vec<u64>>, order: Seq<usize>, rank: int) -> fill::Block {
    fill::Block { rows: reference::dense(dm), order: state::ints(order), rank }
}

/// Clearing a column below its pivot is a step of the block.
proof fn lemma_block_step(
    cur: Seq<Vec<u64>>,
    nxt: Seq<Vec<u64>>,
    order1: Seq<usize>,
    order: Seq<usize>,
    place: Seq<int>,
    row: int,
    pr: int,
    m: int,
    n: int,
    col: int,
    inv: u64,
    p: int,
)
    requires
        nt::is_prime(p),
        reference::is_dense(cur, m, n, p),
        reference::is_dense(nxt, m, n, p),
        reference::is_order(order, place, m),
        0 <= row <= pr < m,
        0 <= col < n,
        order1.len() == m,
        order == order1.update(row, order1[pr]).update(pr, order1[row]),
        forall|i: int| 0 <= i < m ==> #[trigger] order1[i] < m,
        cur[order1[pr] as int]@[col] != 0,
        forall|i: int| row <= i < pr ==> cur[#[trigger] order1[i] as int]@[col] == 0,
        forall|i: int, c: int|
            row <= i < m && 0 <= c < col ==> #[trigger] cur[order[i] as int]@[c] == 0,
        clearing(cur, nxt, order, m, n, row, col, m, inv, p),
        !nt::cong(cur[order[row] as int]@[col] as int, 0, p) ==> nt::cong(
            inv * cur[order[row] as int]@[col],
            1,
            p,
        ),
    ensures
        fill::block_step(block(cur, order1, row), col, p) == block(nxt, order, row + 1),
{
    let b: fill::Block = block(cur, order1, row);
    assert(fill::is_first_holder(b, col, pr)) by {
        assert(b.rows[b.order[pr]][col] == cur[order1[pr] as int]@[col]);
        assert forall|i: int| row <= i < pr implies b.rows[#[trigger] b.order[i]][col] == 0 by {
            assert(cur[order1[i] as int]@[col] == 0);
        }
    }
    fill::lemma_first_holder(b, col, pr);
    let o: Seq<int> = b.order.update(row, b.order[pr]).update(pr, b.order[row]);
    assert(o =~= state::ints(order));
    assert(o.no_duplicates()) by {
        assert forall|i: int, j: int| 0 <= i < o.len() && 0 <= j < o.len() && i != j implies o[i]
            != o[j] by {
            assert(place[order[i] as int] == i && place[order[j] as int] == j);
        }
    }
    let b1: fill::Block = fill::Block { order: o, ..b };
    let r: int = order[row] as int;
    let y: int = cur[r]@[col] as int;
    assert(order[row] == order1[pr]);
    assert(cur[r]@[col] < p);
    if nt::cong(y, 0, p) {
        nt::cong_small(y, 0, p);
    }
    let want: Seq<Seq<int>> = fill::clear_after(b1, col, p);
    let have: Seq<Seq<int>> = reference::dense(nxt);
    assert forall|t: int| 0 <= t < m implies #[trigger] have[t] == want[t] by {
        let i: int = place[t];
        assert(order[i] == t);
        fill::lemma_place_of(o, i);
        assert(o[i] == t);
        if i > row {
            fill::lemma_quotient_by_inverse(cur[t]@[col] as int, y, inv as int, p);
            let f: int = (cur[t]@[col] * inv) % p;
            assert forall|j: int| 0 <= j < n implies #[trigger] have[t][j] == want[t][j] by {
                let x: int = cur[t]@[j] as int;
                let d: int = cur[r]@[j] as int;
                assert(want[t][j] == (x - f * d) % p);
                assert(nxt[order[i] as int]@[j] == if j < col {
                    cur[order[i] as int]@[j] as int
                } else {
                    (cur[order[i] as int]@[j] - (((cur[order[i] as int]@[col] * inv) % p)
                        * cur[order[row] as int]@[j]) % p) % p
                });
                if j < col {
                    assert(cur[order[i] as int]@[j] == 0);
                    assert(cur[order[row] as int]@[j] == 0);
                    assert(f * 0 == 0) by (nonlinear_arith);
                    nt::cong_mod(0, p);
                    nt::cong_small(0int % p, 0, p);
                } else {
                    nt::cong_mod(f * d, p);
                    nt::cong_refl(x, p);
                    nt::cong_minus(x, x, (f * d) % p, f * d, p);
                    nt::cong_iff_mod(x - (f * d) % p, x - f * d, p);
                }
            }
            assert(have[t] =~= want[t]);
        } else {
            assert(nxt[order[i] as int] == cur[order[i] as int]);
            assert(have[t] =~= want[t]);
        }
    }
    assert(have =~= want);
}

/// Row echelon form, leftmost column and first available row: the rows in order and
/// the pivot columns.
pub fn echelon(dm: &mut Vec<Vec<u64>>, m: usize, n: usize, p: u64) -> (res: (
    Vec<usize>,
    Vec<usize>,
))
    requires
        p > 1,
        reference::is_dense(old(dm)@, m as int, n as int, p as int),
    ensures
        reference::is_dense(final(dm)@, m as int, n as int, p as int),
        exists|place: Seq<int>| #[trigger] reference::is_order(res.0@, place, m as int),
        res.1@.len() <= m,
        pivots_below(res.1@, n as int),
        nt::is_prime(p as int) ==> {
            &&& fill::block_upto(
                fill::Block {
                    rows: reference::dense(old(dm)@),
                    order: fill::all_rows(m as int),
                    rank: 0,
                },
                fill::all_rows(n as int),
                n as int,
                p as int,
            ) == block(final(dm)@, res.0@, res.1@.len() as int)
            &&& echelon_state(
                final(dm)@,
                reference::dense(old(dm)@),
                res.0@,
                res.1@,
                m as int,
                n as int,
                n as int,
                p as int,
            )
        },
{
    let ghost q: int = p as int;
    let ghost org = reference::dense(dm@);
    let mut order: Vec<usize> = Vec::new();
    let ghost mut place: Seq<int> = Seq::new(m as nat, |t: int| t);
    let mut k: usize = 0;
    while k < m
        invariant
            k <= m,
            order@.len() == k,
            forall|i: int| 0 <= i < k ==> #[trigger] order@[i] == i,
        decreases m - k,
    {
        order.push(k);
        k += 1;
    }
    let mut piv: Vec<usize> = Vec::new();
    let mut col: usize = 0;
    let ghost b0 = fill::Block {
        rows: reference::dense(dm@),
        order: fill::all_rows(m as int),
        rank: 0,
    };
    let ghost cs = fill::all_rows(n as int);
    proof {
        assert(state::ints(order@) =~= fill::all_rows(m as int));
        assert forall|t: int, j: int| 0 <= t < m && 0 <= j < n implies nt::cong(
            #[trigger] reference::dense(dm@)[t][j],
            org[t][j],
            q,
        ) by {
            nt::cong_refl(org[t][j], q);
        }
        linalg::lemma_elimination_start(reference::dense(dm@), org, n as int, q);
        assert(reference::done_rows(order@, 0) =~= Seq::<int>::empty());
    }
    while col < n && piv.len() < m
        invariant
            p > 1,
            q == p as int,
            org.len() == m,
            linalg::shaped(org, n as int),
            col <= n,
            piv@.len() <= m,
            reference::is_dense(dm@, m as int, n as int, q),
            reference::is_order(order@, place, m as int),
            pivots_below(piv@, col as int),
            cs == fill::all_rows(n as int),
            b0 == (fill::Block {
                rows: reference::dense(old(dm)@),
                order: fill::all_rows(m as int),
                rank: 0,
            }),
            nt::is_prime(q) ==> fill::block_upto(b0, cs, col as int, q) == block(
                dm@,
                order@,
                piv@.len() as int,
            ),
            nt::is_prime(q) ==> echelon_state(
                dm@,
                org,
                order@,
                piv@,
                m as int,
                n as int,
                col as int,
                q,
            ),
        decreases n - col,
    {
        let row: usize = piv.len();
        match find_pivot(&*dm, &order, m, n, row, col) {
            None => {
                proof {
                    let b: fill::Block = block(dm@, order@, row as int);
                    assert forall|i: int| !#[trigger] fill::is_first_holder(b, col as int, i) by {
                        if row <= i < m {
                            assert(dm@[order@[i] as int]@[col as int] == 0);
                            assert(b.rows[b.order[i]][col as int] == 0);
                        }
                    }
                    if nt::is_prime(q) {
                        assert forall|i: int, c: int|
                            row <= i < m && 0 <= c < col + 1 implies #[trigger] dm@[order@[i] as int]@[c]
                            == 0 by {
                            assert(dm@[order@[i] as int]@[col as int] == 0);
                        }
                    }
                }
            },
            Some(pr) => {
                let ghost order1 = order@;
                let x: usize = order[row];
                let y: usize = order[pr];
                order.set(row, y);
                order.set(pr, x);
                proof {
                    place = place.update(y as int, row as int).update(x as int, pr as int);
                    reference::lemma_swap_places(
                        order1,
                        order@,
                        place,
                        m as int,
                        row as int,
                        pr as int,
                    );
                    if nt::is_prime(q) {
                        lemma_echelon_reorder(
                            dm@,
                            org,
                            order1,
                            order@,
                            piv@,
                            m as int,
                            n as int,
                            col as int,
                            pr as int,
                            q,
                        );
                    }
                }
                let ghost cur = dm@;
                let ghost piv1 = piv@;
                let inv: u64 = clear_below(dm, &order, m, n, row, col, p, Ghost(place));
                proof {
                    if nt::is_prime(q) {
                        lemma_block_step(
                            cur,
                            dm@,
                            order1,
                            order@,
                            place,
                            row as int,
                            pr as int,
                            m as int,
                            n as int,
                            col as int,
                            inv,
                            q,
                        );
                        lemma_echelon_step(
                            cur,
                            dm@,
                            org,
                            order@,
                            place,
                            piv1,
                            m as int,
                            n as int,
                            col,
                            inv,
                            q,
                        );
                    }
                }
                piv.push(col);
            },
        }
        col += 1;
    }
    proof {
        if nt::is_prime(q) && col < n {
            fill::lemma_block_full(b0, cs, col as int, n as int, q);
        }
    }
    let found: (Vec<usize>, Vec<usize>) = (order, piv);
    assert(reference::is_order(found.0@, place, m as int));
    found
}

} // verus!
