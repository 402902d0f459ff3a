//! Leftmost canonicalization: the retired rows, reduced to reduced row echelon form
//! with leftmost column scanning.

use super::fill;
use super::phase1;
use super::phase1::list_row;
use super::state;
use super::store;
use super::store::{axpy_merge, RowStore};
use super::Params;
use crate::linalg;
use crate::mont::Mont;
use crate::nt;
use crate::nullspace::arith::invmod;
use crate::nullspace::profile;
use crate::nullspace::rref;
use crate::nullspace::NullspaceError;
use crate::rowspace;
use vstd::prelude::*;

verus! {

/// Every retired row is listed under each of its columns from `col` on.
pub open spec fn listed_from(
    st: &RowStore,
    done: Seq<usize>,
    col_rows: Seq<Vec<usize>>,
    col: int,
) -> bool {
    forall|i: int, k: int|
        0 <= i < done.len() && 0 <= k < st.cols@[done[i] as int]@.len()
            && st.cols@[done[i] as int]@[k] >= col ==> phase1::lists(
            col_rows[#[trigger] st.cols@[done[i] as int]@[k] as int]@,
            done[i] as int,
        )
}

/// Only retired rows are listed.
pub open spec fn names_done(col_rows: Seq<Vec<usize>>, done: Seq<usize>) -> bool {
    forall|c: int, k: int|
        0 <= c < col_rows.len() && 0 <= k < col_rows[c]@.len() ==> done.contains(
            #[trigger] col_rows[c]@[k],
        )
}

/// Listing a retired row keeps the lists to retired rows.
proof fn lemma_names_done(a: Seq<Vec<usize>>, b: Seq<Vec<usize>>, done: Seq<usize>, t: usize)
    requires
        a.len() == b.len(),
        names_done(a, done),
        done.contains(t),
        forall|c: int, k: int|
            0 <= c < b.len() && 0 <= k < b[c]@.len() ==> #[trigger] b[c]@[k] == t
                || phase1::lists(a[c]@, b[c]@[k] as int),
    ensures
        names_done(b, done),
{
    assert forall|c: int, k: int| 0 <= c < b.len() && 0 <= k < b[c]@.len() implies done.contains(
        #[trigger] b[c]@[k],
    ) by {
        if b[c]@[k] != t {
            let j: int = choose|j: int|
                0 <= j < a[c]@.len() && #[trigger] a[c]@[j] == b[c]@[k] as int;
            assert(done.contains(a[c]@[j]));
        }
    }
}

/// The state between columns: the rows `rrows` are reduced with pivots `piv`, all in
/// columns below `col`, and the retired rows that are not reduced yet are zero there.
pub open spec fn canonicalizing(
    rows: Seq<Seq<int>>,
    done: Seq<usize>,
    rrows: Seq<usize>,
    piv: Seq<u32>,
    n: int,
    col: int,
) -> bool {
    &&& rrows.len() == piv.len()
    &&& forall|j: int| 0 <= j < rrows.len() ==> #[trigger] rows[rrows[j] as int][piv[j] as int] == 1
    &&& forall|j: int, i: int|
        0 <= j < rrows.len() && 0 <= i < done.len() && done[i] != rrows[j]
            ==> #[trigger] rows[done[i] as int][piv[j] as int] == 0
    &&& forall|j: int, c: int|
        0 <= j < rrows.len() && 0 <= c < piv[j] ==> #[trigger] rows[rrows[j] as int][c] == 0
    &&& forall|i: int, c: int|
        0 <= i < done.len() && !rrows.contains(done[i]) && 0 <= c < col
            ==> #[trigger] rows[done[i] as int][c] == 0
}

/// Row `r` of the store times `u`.
fn scale_row(cols: &Vec<u32>, vals: &Vec<u64>, u: u64, mont: &Mont, Ghost(n): Ghost<int>) -> (out: (
    Vec<u32>,
    Vec<u64>,
))
    requires
        mont.wf(),
        u < mont.p,
        profile::is_sparse(cols@, vals@, n, mont.p as int),
    ensures
        profile::is_sparse(out.0@, out.1@, n, mont.p as int),
        out.0@.len() <= cols@.len(),
        forall|j: int|
            #[trigger] profile::coef(out.0@, out.1@, j) == (u * profile::coef(cols@, vals@, j))
                % mont.p as int,
        forall|k: int|
            0 <= k < out.0@.len() ==> profile::is_pivot(cols@, #[trigger] out.0@[k] as int),
{
    let ghost q: int = mont.p as int;
    let u_mont: u64 = mont.to_mont(u);
    let mut oc: Vec<u32> = Vec::new();
    let mut ov: Vec<u64> = Vec::new();
    let mut k: usize = 0;
    proof {
        assert(cols@.take(0) =~= Seq::empty());
        assert(u * 0 == 0) by (nonlinear_arith);
        nt::cong_mod(0, q);
        nt::cong_small(0int % q, 0, q);
    }
    while k < cols.len()
        invariant
            k <= cols@.len(),
            mont.wf(),
            q == mont.p as int,
            u < mont.p,
            u_mont < mont.p,
            nt::cong(u_mont as int, u * crate::mont::radix(), q),
            profile::is_sparse(cols@, vals@, n, q),
            profile::is_sparse(oc@, ov@, n, q),
            oc@.len() <= k,
            forall|i: int, j: int|
                0 <= i < oc@.len() && k <= j < cols@.len() ==> #[trigger] oc@[i]
                    < #[trigger] cols@[j],
            forall|i: int|
                0 <= i < oc@.len() ==> profile::is_pivot(cols@, #[trigger] oc@[i] as int),
            forall|j: int|
                #[trigger] profile::coef(oc@, ov@, j) == (u * profile::coef(
                    cols@.take(k as int),
                    vals@.take(k as int),
                    j,
                )) % q,
        decreases cols@.len() - k,
    {
        let ghost oc1 = oc@;
        let ghost ov1 = ov@;
        let ghost a = cols@.take(k as int);
        let ghost b = vals@.take(k as int);
        let ghost c: u32 = cols@[k as int];
        let ghost x: u64 = vals@[k as int];
        let v: u64 = mont.mulredc(u_mont, vals[k]);
        proof {
            mont.lemma_plain_product(u as int, u_mont, x, v);
            nt::cong_iff_mod(v as int, u * x, q);
            nt::cong_mod(v as int, q);
            nt::cong_small(v as int % q, v as int, q);
            assert(v == (u * x) % q);
            assert(cols@.take(k + 1) =~= a.push(c));
            assert(vals@.take(k + 1) =~= b.push(x));
            assert forall|i: int| 0 <= i < a.len() implies #[trigger] a[i] < c by {
                assert(cols@[i] < cols@[k as int]);
            }
            assert forall|j: int| #[trigger] profile::coef(a.push(c), b.push(x), j) == if j == c {
                x as int
            } else {
                profile::coef(a, b, j)
            } by {
                store::lemma_coef_push(a, b, c, x, j);
            }
            assert(cols@[k as int] == c as int);
            assert(profile::is_pivot(cols@, c as int));
        }
        if v != 0 {
            oc.push(cols[k]);
            ov.push(v);
            proof {
                assert forall|j: int| #[trigger] profile::coef(oc@, ov@, j) == (u * profile::coef(
                    cols@.take(k + 1),
                    vals@.take(k + 1),
                    j,
                )) % q by {
                    store::lemma_coef_push(oc1, ov1, c, v, j);
                    assert(profile::coef(oc1, ov1, j) == (u * profile::coef(a, b, j)) % q);
                }
                store::lemma_coef_push(oc1, ov1, c, v, 0);
                assert forall|i: int, j: int|
                    0 <= i < oc@.len() && k + 1 <= j < cols@.len() implies #[trigger] oc@[i]
                    < #[trigger] cols@[j] by {
                    if i < oc1.len() {
                        assert(oc@[i] == oc1[i]);
                    } else {
                        assert(cols@[k as int] < cols@[j]);
                    }
                }
            }
        } else {
            proof {
                assert forall|j: int| #[trigger] profile::coef(oc@, ov@, j) == (u * profile::coef(
                    cols@.take(k + 1),
                    vals@.take(k + 1),
                    j,
                )) % q by {
                    assert(profile::coef(oc1, ov1, j) == (u * profile::coef(a, b, j)) % q);
                    if j == c {
                        if profile::is_pivot(oc1, j) {
                            let i: int = choose|i: int| 0 <= i < oc1.len() && #[trigger] oc1[i] == j;
                            assert(oc1[i] < cols@[k as int]);
                        }
                        store::lemma_coef_absent(oc1, ov1, j);
                    }
                }
            }
        }
        k += 1;
    }
    proof {
        assert(cols@.take(k as int) =~= cols@);
        assert(vals@.take(k as int) =~= vals@);
    }
    (oc, ov)
}

/// The stage that the store and the lists stand for.
pub open spec fn stage(
    st: &RowStore,
    col_rows: Seq<Vec<usize>>,
    active: Seq<bool>,
    done: Seq<int>,
    n: int,
) -> fill::Stage {
    fill::Stage { rows: st.rows(n), active, held: phase1::lists_of(col_rows), done }
}

/// The rows that are not reduced yet.
pub open spec fn unprocessed(processed: Seq<bool>) -> Seq<bool> {
    Seq::new(processed.len(), |t: int| !processed[t])
}

/// Of the rows listed under a column that hold it and are not reduced yet, the place of
/// the one with the fewest entries.
fn find_pivot_row(
    st: &RowStore,
    holders: &Vec<usize>,
    processed: &Vec<bool>,
    col: u32,
    Ghost(s): Ghost<fill::Stage>,
    Ghost(n): Ghost<int>,
    Ghost(p): Ghost<int>,
) -> (res: Option<usize>)
    requires
        st.wf(n, p),
        n >= 0,
        col < n,
        processed@.len() == st.cols@.len(),
        forall|k: int| 0 <= k < holders@.len() ==> #[trigger] holders@[k] < st.cols@.len(),
        s.rows == st.rows(n),
        s.active == unprocessed(processed@),
    ensures
        res matches Some(j) ==> fill::is_lightest(s, state::ints(holders@), col as int, j as int),
        res is None ==> forall|k: int|
            !#[trigger] fill::can_pivot(s, state::ints(holders@), col as int, k),
{
    let ghost hs = state::ints(holders@);
    let ghost c: int = col as int;
    proof {
        fill::lemma_live(st, n, p);
    }
    let mut pivot: Option<usize> = None;
    let mut best: usize = 0;
    let mut j: usize = 0;
    while j < holders.len()
        invariant
            j <= holders@.len(),
            st.wf(n, p),
            col < n,
            c == col as int,
            hs == state::ints(holders@),
            s.rows == st.rows(n),
            s.active == unprocessed(processed@),
            processed@.len() == st.cols@.len(),
            forall|k: int| 0 <= k < holders@.len() ==> #[trigger] holders@[k] < st.cols@.len(),
            forall|t: int|
                0 <= t < st.cols@.len() ==> fill::entries(#[trigger] st.rows(n)[t])
                    == st.cols@[t]@.len(),
            pivot matches Some(b) ==> b < j && fill::can_pivot(s, hs, c, b as int) && best
                == fill::entries(s.rows[hs[b as int]]),
            pivot matches Some(b) ==> forall|i: int|
                i < j && #[trigger] fill::can_pivot(s, hs, c, i) ==> best < fill::entries(
                    s.rows[hs[i]],
                ) || (best == fill::entries(s.rows[hs[i]]) && b <= i),
            pivot is None ==> forall|i: int| i < j ==> !#[trigger] fill::can_pivot(s, hs, c, i),
        decreases holders@.len() - j,
    {
        let t: usize = holders[j];
        assert(holders@[j as int] < st.cols@.len());
        assert(hs[j as int] == t);
        match st.contains(t, col, Ghost(n), Ghost(p)) {
            None => {
                assert(!fill::can_pivot(s, hs, c, j as int));
            },
            Some(_) => {
                let len: usize = st.nnz(t);
                assert(fill::entries(st.rows(n)[t as int]) == len);
                if !processed[t] && (pivot.is_none() || len < best) {
                    best = len;
                    pivot = Some(j);
                }
            },
        }
        j += 1;
    }
    pivot
}

/// Taking `x` times one from `x` leaves zero.
proof fn lemma_unit_clears(x: int, p: int)
    requires
        p > 1,
    ensures
        (x - x * 1) % p == 0,
{
    nt::cong_mod(0, p);
    nt::cong_small(0int % p, 0, p);
}

/// Clears column `col` in the rows `holders`, with row `r` as the pivot row.
fn reduce_rows(
    st: &mut RowStore,
    col_rows: &mut Vec<Vec<usize>>,
    holders: &Vec<usize>,
    r: usize,
    col: u32,
    mont: &Mont,
    max_entries: usize,
    pivots_done: usize,
    n: usize,
    Ghost(done): Ghost<Seq<usize>>,
    Ghost(active): Ghost<Seq<bool>>,
    Ghost(reduced): Ghost<Seq<int>>,
) -> (res: Result<Ghost<Seq<int>>, NullspaceError>)
    requires
        mont.wf(),
        n <= u32::MAX,
        col < n,
        old(st).wf(n as int, mont.p as int),
        old(st).live_entries <= max_entries,
        old(col_rows)@.len() == n,
        phase1::names_rows(old(col_rows)@, old(st).cols@.len() as int),
        r < old(st).cols@.len(),
        forall|k: int| 0 <= k < holders@.len() ==> #[trigger] holders@[k] < old(st).cols@.len(),
        forall|k: int| 0 <= k < holders@.len() ==> done.contains(#[trigger] holders@[k]),
        names_done(old(col_rows)@, done),
        forall|i: int| 0 <= i < done.len() ==> #[trigger] done[i] < old(st).cols@.len(),
        reduced.len() == pivots_done,
        nt::is_prime(mont.p as int) ==> {
            &&& old(st).rows(n as int)[r as int][col as int] == 1
            &&& listed_from(old(st), done, old(col_rows)@, col + 1)
        },
    ensures
        res matches Err(e) ==> super::is_fill_refusal(e, max_entries) && old(st).cols@.len() * n
            > max_entries,
        nt::is_prime(mont.p as int) ==> {
            let step = fill::clear_rows(
                stage(old(st), old(col_rows)@, active, reduced, n as int),
                false,
                r as int,
                col as int,
                state::ints(holders@),
                holders@.len() as int,
                mont.p as int,
                max_entries as int,
            );
            match res {
                Err(e) => super::refuses(step, e, 2, max_entries),
                Ok(_) => step == fill::Outcome::Going(
                    stage(final(st), final(col_rows)@, active, reduced, n as int),
                ),
            }
        },
        res matches Ok(fs) ==> {
            &&& final(st).wf(n as int, mont.p as int)
            &&& final(st).cols@.len() == old(st).cols@.len()
            &&& final(st).orig == old(st).orig
            &&& final(st).live_entries <= max_entries
            &&& final(col_rows)@.len() == n
            &&& phase1::names_rows(final(col_rows)@, old(st).cols@.len() as int)
            &&& names_done(final(col_rows)@, done)
            &&& nt::is_prime(mont.p as int) ==> {
                &&& final(st).rows(n as int)[r as int] == old(st).rows(n as int)[r as int]
                &&& listed_from(final(st), done, final(col_rows)@, col + 1)
                &&& phase1::reduced_by(
                    old(st),
                    final(st),
                    r as int,
                    col as int,
                    fs@,
                    n as int,
                    mont.p as int,
                )
                &&& forall|k: int|
                    0 <= k < holders@.len() && #[trigger] holders@[k] != r ==> final(st).rows(
                        n as int,
                    )[holders@[k] as int][col as int] == 0
            }
        },
{
    let p: u64 = mont.p;
    let ghost q: int = p as int;
    let ghost nn: int = n as int;
    let ghost st0 = *st;
    let ghost s0 = stage(&*st, col_rows@, active, reduced, nn);
    let ghost hs: Seq<int> = state::ints(holders@);
    let m: usize = st.cols.len();
    let ghost mut fs: Seq<int> = Seq::new(m as nat, |t: int| 0int);
    proof {
        assert forall|t: int| 0 <= t < m && t != r implies linalg::is_axpy(
            #[trigger] st.rows(nn)[t],
            st0.rows(nn)[t],
            st0.rows(nn)[r as int],
            fs[t],
            q,
        ) by {
            assert forall|j: int| 0 <= j < nn implies nt::cong(
                #[trigger] st.rows(nn)[t][j],
                st0.rows(nn)[t][j] - 0 * st0.rows(nn)[r as int][j],
                q,
            ) by {
                assert(0 * st0.rows(nn)[r as int][j] == 0) by (nonlinear_arith);
                nt::cong_refl(st0.rows(nn)[t][j], q);
            }
        }
    }
    let mut j: usize = 0;
    while j < holders.len()
        invariant
            j <= holders@.len(),
            mont.wf(),
            p == mont.p,
            q == p as int,
            nn == n as int,
            n <= u32::MAX,
            col < n,
            st0 == *old(st),
            st0.wf(nn, q),
            m == st0.cols@.len(),
            r < m,
            st.wf(nn, q),
            st.cols@.len() == m,
            st.orig == st0.orig,
            st.live_entries <= max_entries,
            col_rows@.len() == n,
            phase1::names_rows(col_rows@, m as int),
            names_done(col_rows@, done),
            forall|k: int| 0 <= k < holders@.len() ==> #[trigger] holders@[k] < m,
            forall|k: int| 0 <= k < holders@.len() ==> done.contains(#[trigger] holders@[k]),
            forall|i: int| 0 <= i < done.len() ==> #[trigger] done[i] < m,
            st.cols@[r as int] == st0.cols@[r as int],
            st.vals@[r as int] == st0.vals@[r as int],
            reduced.len() == pivots_done,
            s0 == stage(old(st), old(col_rows)@, active, reduced, nn),
            hs == state::ints(holders@),
            nt::is_prime(q) ==> {
                &&& fill::clear_rows(
                    s0,
                    false,
                    r as int,
                    col as int,
                    hs,
                    j as int,
                    q,
                    max_entries as int,
                ) == fill::Outcome::Going(stage(&*st, col_rows@, active, reduced, nn))
                &&& st0.rows(nn)[r as int][col as int] == 1
                &&& listed_from(&*st, done, col_rows@, col + 1)
                &&& phase1::reduced_by(&st0, &*st, r as int, col as int, fs, nn, q)
                &&& forall|k: int|
                    0 <= k < j && #[trigger] holders@[k] != r ==> st.rows(nn)[holders@[k] as int][col as int]
                        == 0
            },
        decreases holders@.len() - j,
    {
        let t: usize = holders[j];
        let ghost st1 = *st;
        let ghost lists1 = col_rows@;
        let ghost s1 = stage(&*st, col_rows@, active, reduced, nn);
        assert(holders@[j as int] < m);
        assert(hs[j as int] == t);
        if t != r {
            match st.contains(t, col, Ghost(nn), Ghost(q)) {
                None => {},
                Some(tk) => {
                    proof {
                        assert(st.row_wf(t as int, nn, q));
                        assert(st.row_wf(r as int, nn, q));
                    }
                    let f: u64 = st.vals[t][tk];
                    let mut added: Vec<u32> = Vec::new();
                    let (nc, nv): (Vec<u32>, Vec<u64>) = axpy_merge(
                        &st.cols[t],
                        &st.vals[t],
                        &st.cols[r],
                        &st.vals[r],
                        f,
                        mont,
                        &mut added,
                        Ghost(nn),
                    );
                    let ghost nc0 = nc@;
                    let ghost nv0 = nv@;
                    let ghost new: Seq<int> = profile::expand(nc0, nv0, nn);
                    proof {
                        store::lemma_total_update(st.cols@, t as int, nc);
                        fill::lemma_live(&*st, nn, q);
                        fill::lemma_live_update(s1.rows, t as int, new);
                        fill::lemma_entries(nc0, nv0, nn, q);
                        assert(fill::entries(st.rows(nn)[t as int]) == st.cols@[t as int]@.len());
                        assert(s1.rows[t as int][col as int] == f);
                        if nt::is_prime(q) {
                            assert(s1.rows[r as int][col as int] == 1);
                            assert(f * 1 == f);
                            nt::cong_mod(f as int, q);
                            nt::cong_small(f as int % q, f as int, q);
                            nt::cong_refl(1, q);
                            phase1::lemma_row_cleared(
                                &st1,
                                t as int,
                                r as int,
                                col as int,
                                1,
                                nc0,
                                nv0,
                                nn,
                                q,
                            );
                        }
                    }
                    let rest: usize = st.live_entries - st.cols[t].len();
                    let room: usize = max_entries - rest;
                    if nc.len() > room {
                        proof {
                            let big: Seq<Vec<u32>> = st.cols@.update(t as int, nc);
                            assert forall|i: int| 0 <= i < big.len() implies (
                            #[trigger] big[i])@.len() <= nn by {
                                if i == t {
                                    store::lemma_row_len(nc@, nn);
                                } else {
                                    assert(st.row_wf(i, nn, q));
                                    store::lemma_row_len(st.cols@[i]@, nn);
                                }
                            }
                            store::lemma_total_bound(big, nn);
                            if nt::is_prime(q) {
                                fill::lemma_over_stays(
                                    s0,
                                    false,
                                    r as int,
                                    col as int,
                                    hs,
                                    j + 1,
                                    hs.len() as int,
                                    q,
                                    max_entries as int,
                                );
                            }
                        }
                        return Err(
                            NullspaceError::FillBudget {
                                live_entries: rest.saturating_add(nc.len()),
                                max_entries,
                                pivots_done,
                                phase: 2,
                            },
                        );
                    }
                    list_row(col_rows, &added, t, n, m);
                    proof {
                        assert(done.contains(holders@[j as int]));
                        lemma_names_done(lists1, col_rows@, done, t);
                    }
                    st.replace(t, nc, nv, Ghost(nn), Ghost(q));
                    proof {
                        phase1::lemma_listing(
                            lists1,
                            col_rows@,
                            added@,
                            st1.cols@[t as int]@,
                            st1.vals@[t as int]@,
                            nc0,
                            nv0,
                            t,
                            nn,
                            q,
                        );
                        let s2: fill::Stage = stage(&*st, col_rows@, active, reduced, nn);
                        assert(s2.rows == s1.rows.update(t as int, new));
                        assert(s2.held == fill::listing(s1.held, s1.rows[t as int], new, t as int));
                        if nt::is_prime(q) {
                            let out: Seq<int> = profile::expand(nc0, nv0, nn);
                            assert(st.rows(nn)[t as int] == out);
                            assert(profile::coef(nc0, nv0, col as int) == store::merged(
                                st1.cols@[t as int]@,
                                st1.vals@[t as int]@,
                                st1.cols@[r as int]@,
                                st1.vals@[r as int]@,
                                f as int,
                                q,
                                col as int,
                            ));
                            lemma_unit_clears(f as int, q);
                            assert(st1.rows(nn)[t as int][col as int] == f);
                            assert(st1.rows(nn)[r as int][col as int] == 1);
                            assert(out[col as int] == 0);
                            assert(st1.rows(nn)[t as int] == st0.rows(nn)[t as int]);
                            store::lemma_merge_is_axpy(
                                st1.cols@[t as int]@,
                                st1.vals@[t as int]@,
                                st1.cols@[r as int]@,
                                st1.vals@[r as int]@,
                                nc0,
                                nv0,
                                f as int,
                                nn,
                                q,
                            );
                            let fs2: Seq<int> = fs.update(t as int, f as int);
                            assert forall|s: int| 0 <= s < m && s != r implies linalg::is_axpy(
                                #[trigger] st.rows(nn)[s],
                                st0.rows(nn)[s],
                                st0.rows(nn)[r as int],
                                fs2[s],
                                q,
                            ) by {
                                if s != t {
                                    assert(linalg::is_axpy(
                                        st1.rows(nn)[s],
                                        st0.rows(nn)[s],
                                        st0.rows(nn)[r as int],
                                        fs[s],
                                        q,
                                    ));
                                }
                            }
                            assert forall|s: int| 0 <= s < m && s != r implies #[trigger] st.rows(
                                nn,
                            )[s] == st0.rows(nn)[s] || st.rows(nn)[s][col as int] == 0 by {
                                if s != t {
                                    assert(st1.rows(nn)[s] == st0.rows(nn)[s] || st1.rows(
                                        nn,
                                    )[s][col as int] == 0);
                                }
                            }
                            fs = fs2;
                            assert forall|i: int, k: int|
                                0 <= i < done.len() && 0 <= k < st.cols@[done[i] as int]@.len()
                                    && st.cols@[done[i] as int]@[k] >= col
                                    + 1 implies phase1::lists(
                                col_rows@[#[trigger] st.cols@[done[i] as int]@[k] as int]@,
                                done[i] as int,
                            ) by {
                                let s: int = done[i] as int;
                                let d: int = st.cols@[s]@[k] as int;
                                assert(done[i] < m);
                                assert(st.row_wf(s, nn, q));
                                assert(st.cols@[s]@[k] < nn);
                                if s == t {
                                    assert(st.cols@[s]@ == nc0);
                                    assert(profile::is_pivot(
                                        st1.cols@[t as int]@,
                                        nc0[k] as int,
                                    ) || added@.contains(nc0[k]));
                                    if profile::is_pivot(st1.cols@[t as int]@, nc0[k] as int) {
                                        let l: int = choose|l: int|
                                            0 <= l < st1.cols@[t as int]@.len()
                                                && #[trigger] st1.cols@[t as int]@[l]
                                                == nc0[k] as int;
                                        assert(phase1::lists(
                                            lists1[st1.cols@[done[i] as int]@[l] as int]@,
                                            done[i] as int,
                                        ));
                                        assert(phase1::lists(col_rows@[d]@, s));
                                    } else {
                                        let l: int = choose|l: int|
                                            0 <= l < added@.len() && added@[l] == nc0[k];
                                        assert(phase1::lists(
                                            col_rows@[added@[l] as int]@,
                                            t as int,
                                        ));
                                    }
                                } else {
                                    assert(st.cols@[s] == st1.cols@[s]);
                                    assert(phase1::lists(
                                        lists1[st1.cols@[done[i] as int]@[k] as int]@,
                                        done[i] as int,
                                    ));
                                    assert(phase1::lists(col_rows@[d]@, s));
                                }
                            }
                        }
                    }
                },
            }
        }
        proof {
            if nt::is_prime(q) {
                assert forall|k: int| 0 <= k < j + 1 && #[trigger] holders@[k] != r implies st.rows(
                    nn,
                )[holders@[k] as int][col as int] == 0 by {
                    let s: int = holders@[k] as int;
                    if s != t {
                        assert(st1.rows(nn)[s][col as int] == 0);
                        assert(st.rows(nn)[s] == st1.rows(nn)[s]);
                    }
                }
            }
        }
        j += 1;
    }
    proof {
        assert(st.rows(nn)[r as int] == st0.rows(nn)[r as int]);
    }
    Ok(Ghost(fs))
}

/// A pivot step takes the canonicalization to the next column.
proof fn lemma_canonical_step(
    rows: Seq<Seq<int>>,
    nxt: Seq<Seq<int>>,
    done: Seq<usize>,
    rrows: Seq<usize>,
    piv: Seq<u32>,
    fs: Seq<int>,
    r: usize,
    u: int,
    n: int,
    col: u32,
    p: int,
)
    requires
        p > 1,
        rows.len() == nxt.len(),
        linalg::shaped(rows, n),
        linalg::shaped(nxt, n),
        forall|t: int, c: int|
            0 <= t < rows.len() && 0 <= c < n ==> 0 <= #[trigger] rows[t][c] < p,
        forall|t: int, c: int| 0 <= t < nxt.len() && 0 <= c < n ==> 0 <= #[trigger] nxt[t][c] < p,
        forall|i: int| 0 <= i < done.len() ==> #[trigger] done[i] < rows.len(),
        forall|j: int| 0 <= j < rrows.len() ==> done.contains(#[trigger] rrows[j]),
        col < n,
        forall|j: int| 0 <= j < piv.len() ==> #[trigger] piv[j] < col,
        canonicalizing(rows, done, rrows, piv, n, col as int),
        done.contains(r),
        !rrows.contains(r),
        linalg::is_scaled(nxt[r as int], rows[r as int], u, p),
        fs.len() == rows.len(),
        forall|t: int|
            0 <= t < rows.len() && t != r ==> linalg::is_axpy(
                #[trigger] nxt[t],
                rows[t],
                nxt[r as int],
                fs[t],
                p,
            ),
        nxt[r as int][col as int] == 1,
        forall|i: int|
            0 <= i < done.len() && #[trigger] done[i] != r ==> nxt[done[i] as int][col as int] == 0,
    ensures
        canonicalizing(nxt, done, rrows.push(r), piv.push(col), n, col + 1),
{
    let rrows2: Seq<usize> = rrows.push(r);
    let piv2: Seq<u32> = piv.push(col);
    let ri: int = choose|i: int| 0 <= i < done.len() && done[i] == r;
    assert(done[ri] < rows.len());
    // Where the pivot row is zero, nothing changes.
    assert forall|t: int, c: int|
        0 <= t < rows.len() && 0 <= c < n && rows[r as int][c] == 0 implies #[trigger] nxt[t][c]
        == rows[t][c] by {
        assert(nt::cong(nxt[r as int][c], u * rows[r as int][c], p));
        assert(u * 0 == 0) by (nonlinear_arith);
        nt::cong_small(nxt[r as int][c], 0, p);
        if t != r {
            assert(linalg::is_axpy(nxt[t], rows[t], nxt[r as int], fs[t], p));
            assert(nt::cong(nxt[t][c], rows[t][c] - fs[t] * nxt[r as int][c], p));
            assert(fs[t] * 0 == 0) by (nonlinear_arith);
            nt::cong_small(nxt[t][c], rows[t][c], p);
        }
    }
    // The pivot row is zero before its column.
    assert forall|c: int| 0 <= c < col implies #[trigger] rows[r as int][c] == 0 by {
        assert(!rrows.contains(done[ri]));
        assert(rows[done[ri] as int][c] == 0);
    }
    assert forall|j: int| 0 <= j < rrows2.len() implies #[trigger] nxt[rrows2[j] as int][piv2[j] as int]
        == 1 by {
        if j < rrows.len() {
            assert(rrows2[j] == rrows[j] && piv2[j] == piv[j]);
            assert(rows[rrows[j] as int][piv[j] as int] == 1);
            assert(piv[j] < col);
            assert(done.contains(rrows[j]));
            let k: int = choose|k: int| 0 <= k < done.len() && done[k] == rrows[j];
            assert(done[k] < rows.len());
            assert(rows[r as int][piv[j] as int] == 0);
            assert(nxt[rrows[j] as int][piv[j] as int] == rows[rrows[j] as int][piv[j] as int]);
        }
    }
    assert forall|j: int, i: int|
        0 <= j < rrows2.len() && 0 <= i < done.len() && done[i] != rrows2[j] implies
    #[trigger] nxt[done[i] as int][piv2[j] as int] == 0 by {
        assert(done[i] < rows.len());
        if j < rrows.len() {
            assert(rrows2[j] == rrows[j] && piv2[j] == piv[j]);
            assert(piv[j] < col);
            assert(rows[done[i] as int][piv[j] as int] == 0);
            assert(rows[r as int][piv[j] as int] == 0);
            assert(nxt[done[i] as int][piv[j] as int] == rows[done[i] as int][piv[j] as int]);
        }
    }
    assert forall|j: int, c: int| 0 <= j < rrows2.len() && 0 <= c < piv2[j] implies
    #[trigger] nxt[rrows2[j] as int][c] == 0 by {
        if j < rrows.len() {
            assert(rrows2[j] == rrows[j] && piv2[j] == piv[j]);
            assert(piv[j] < col);
            assert(rows[rrows[j] as int][c] == 0);
            assert(done.contains(rrows[j]));
            let k: int = choose|k: int| 0 <= k < done.len() && done[k] == rrows[j];
            assert(done[k] < rows.len());
            assert(rows[r as int][c] == 0);
            assert(nxt[rrows[j] as int][c] == rows[rrows[j] as int][c]);
        } else {
            assert(rows[r as int][c] == 0);
            assert(nxt[r as int][c] == rows[r as int][c]);
        }
    }
    assert forall|i: int, c: int|
        0 <= i < done.len() && !rrows2.contains(done[i]) && 0 <= c < col + 1 implies
    #[trigger] nxt[done[i] as int][c] == 0 by {
        assert(done[i] < rows.len());
        assert(rrows2[rrows.len() as int] == r);
        assert(done[i] != r);
        assert(!rrows.contains(done[i])) by {
            if rrows.contains(done[i]) {
                let k: int = choose|k: int| 0 <= k < rrows.len() && rrows[k] == done[i];
                assert(rrows2[k] == done[i]);
            }
        }
        if c < col {
            assert(rows[done[i] as int][c] == 0);
            assert(rows[r as int][c] == 0);
            assert(nxt[done[i] as int][c] == rows[done[i] as int][c]);
        }
    }
}

/// Every row's coordinates are residues.
proof fn lemma_rows_range(st: &RowStore, n: int, p: int)
    requires
        p > 0,
        st.wf(n, p),
    ensures
        linalg::shaped(st.rows(n), n) || n < 0,
        forall|t: int, c: int|
            0 <= t < st.rows(n).len() && 0 <= c < n ==> 0 <= #[trigger] st.rows(n)[t][c] < p,
{
    assert forall|t: int, c: int| 0 <= t < st.rows(n).len() && 0 <= c < n implies 0
        <= #[trigger] st.rows(n)[t][c] < p by {
        assert(st.row_wf(t, n, p));
        profile::lemma_coef_range(st.cols@[t]@, st.vals@[t]@, n, p, c);
    }
}

/// The rows of the reduced form, in pivot order.
pub open spec fn reduced_rows(rows: Seq<Seq<int>>, rrows: Seq<usize>) -> Seq<Seq<int>> {
    Seq::new(rrows.len(), |j: int| rows[rrows[j] as int])
}

/// Once all columns are scanned every retired row is reduced, because independent rows
/// are not zero.
proof fn lemma_canonical_end(
    rows: Seq<Seq<int>>,
    done: Seq<usize>,
    rrows: Seq<usize>,
    piv: Seq<u32>,
    n: int,
    p: int,
)
    requires
        p > 1,
        n >= 0,
        linalg::shaped(rows, n),
        forall|t: int, c: int|
            0 <= t < rows.len() && 0 <= c < n ==> 0 <= #[trigger] rows[t][c] < p,
        forall|i: int| 0 <= i < done.len() ==> #[trigger] done[i] < rows.len(),
        done.no_duplicates(),
        rrows.no_duplicates(),
        forall|j: int| 0 <= j < rrows.len() ==> done.contains(#[trigger] rrows[j]),
        profile::ascending(piv),
        forall|j: int| 0 <= j < piv.len() ==> #[trigger] piv[j] < n,
        canonicalizing(rows, done, rrows, piv, n, n),
        rowspace::independent(rows, state::ints(done), n, p),
    ensures
        rrows.len() == done.len(),
        rref::is_rref(reduced_rows(rows, rrows), piv, n, p),
        forall|y: Seq<int>|
            linalg::in_kernel(reduced_rows(rows, rrows), y, p) <==> #[trigger] linalg::kills(
                rows,
                state::ints(done),
                y,
                p,
            ),
{
    let d: Seq<int> = state::ints(done);
    let rr: Seq<Seq<int>> = reduced_rows(rows, rrows);
    assert forall|i: int| 0 <= i < done.len() implies rrows.contains(#[trigger] done[i]) by {
        if !rrows.contains(done[i]) {
            assert(done[i] < rows.len());
            rowspace::lemma_independent_nonzero(rows, d, n, p, i);
            let c: int = choose|c: int| 0 <= c < n && #[trigger] rows[d[i]][c] != 0;
            assert(rows[done[i] as int][c] == 0);
        }
    }
    assert(rrows.to_set() =~= done.to_set()) by {
        assert forall|x: usize| rrows.to_set().contains(x) <==> done.to_set().contains(x) by {
            if rrows.contains(x) {
                let j: int = choose|j: int| 0 <= j < rrows.len() && rrows[j] == x;
                assert(done.contains(rrows[j]));
            }
            if done.contains(x) {
                let i: int = choose|i: int| 0 <= i < done.len() && done[i] == x;
                assert(rrows.contains(done[i]));
            }
        }
    }
    rrows.unique_seq_to_set();
    done.unique_seq_to_set();
    assert forall|j: int| 0 <= j < rrows.len() implies #[trigger] rrows[j] < rows.len() by {
        assert(done.contains(rrows[j]));
        let i: int = choose|i: int| 0 <= i < done.len() && done[i] == rrows[j];
        assert(done[i] < rows.len());
    }
    assert(linalg::shaped(rr, n)) by {
        assert forall|j: int| 0 <= j < rr.len() implies (#[trigger] rr[j]).len() == n by {
            assert(rrows[j] < rows.len());
        }
    }
    assert forall|j: int, c: int| 0 <= j < rr.len() && 0 <= c < n implies 0 <= #[trigger] rr[j][c]
        < p by {
        assert(rrows[j] < rows.len());
        assert(0 <= rows[rrows[j] as int][c] < p);
    }
    assert forall|j: int| 0 <= j < rr.len() implies #[trigger] rr[j][piv[j] as int] == 1 by {
        assert(rows[rrows[j] as int][piv[j] as int] == 1);
    }
    assert forall|i: int, j: int|
        0 <= i < rr.len() && 0 <= j < piv.len() && i != j implies #[trigger] rr[i][piv[j] as int]
        == 0 by {
        assert(rrows[i] != rrows[j]);
        assert(done.contains(rrows[i]));
        let k: int = choose|k: int| 0 <= k < done.len() && done[k] == rrows[i];
        assert(rows[done[k] as int][piv[j] as int] == 0);
    }
    assert forall|j: int, c: int| 0 <= j < rr.len() && 0 <= c < piv[j] implies #[trigger] rr[j][c]
        == 0 by {
        assert(rows[rrows[j] as int][c] == 0);
    }
    assert forall|y: Seq<int>|
        linalg::in_kernel(rr, y, p) <==> #[trigger] linalg::kills(rows, d, y, p) by {
        if linalg::in_kernel(rr, y, p) {
            assert forall|k: int| 0 <= k < d.len() implies linalg::vanishes(
                rows[#[trigger] d[k]],
                y,
                p,
            ) by {
                assert(rrows.contains(done[k]));
                let j: int = choose|j: int| 0 <= j < rrows.len() && rrows[j] == done[k];
                assert(linalg::vanishes(rr[j], y, p));
            }
        }
        if linalg::kills(rows, d, y, p) {
            assert forall|j: int| 0 <= j < rr.len() implies linalg::vanishes(
                #[trigger] rr[j],
                y,
                p,
            ) by {
                assert(done.contains(rrows[j]));
                let k: int = choose|k: int| 0 <= k < done.len() && done[k] == rrows[j];
                assert(linalg::vanishes(rows[d[k]], y, p));
            }
        }
    }
}

/// The lists of the retired rows under their columns.
fn start_lists(st: &RowStore, done: &Vec<usize>, n: usize, Ghost(p): Ghost<int>) -> (col_rows: Vec<
    Vec<usize>,
>)
    requires
        st.wf(n as int, p),
        forall|i: int| 0 <= i < done@.len() ==> #[trigger] done@[i] < st.cols@.len(),
    ensures
        col_rows@.len() == n,
        phase1::names_rows(col_rows@, st.cols@.len() as int),
        names_done(col_rows@, done@),
        listed_from(st, done@, col_rows@, 0),
        phase1::lists_of(col_rows@) == fill::start(
            st.rows(n as int),
            state::ints(done@),
            n as int,
        ).held,
{
    let m: usize = st.cols.len();
    let ghost rows = st.rows(n as int);
    let ghost sel = state::ints(done@);
    let mut col_rows: Vec<Vec<usize>> = Vec::new();
    let mut c: usize = 0;
    while c < n
        invariant
            c <= n,
            col_rows@.len() == c,
            phase1::names_rows(col_rows@, m as int),
            forall|d: int| 0 <= d < c ==> (#[trigger] col_rows@[d])@.len() == 0,
        decreases n - c,
    {
        let ghost before = col_rows@;
        col_rows.push(Vec::new());
        assert(phase1::names_rows(col_rows@, m as int)) by {
            assert forall|d: int, k: int|
                0 <= d < col_rows@.len() && 0 <= k < col_rows@[d]@.len() implies
            #[trigger] col_rows@[d]@[k] < m by {
                assert(col_rows@[d]@[k] == before[d]@[k]);
            }
        }
        c += 1;
    }
    proof {
        assert forall|d: int| 0 <= d < n implies state::ints((#[trigger] col_rows@[d])@)
            == fill::holding(rows, sel, d, 0) by {
            assert(state::ints(col_rows@[d]@) =~= Seq::<int>::empty());
        }
    }
    let mut i: usize = 0;
    while i < done.len()
        invariant
            i <= done@.len(),
            rows == st.rows(n as int),
            sel == state::ints(done@),
            forall|d: int|
                0 <= d < n ==> state::ints((#[trigger] col_rows@[d])@) == fill::holding(
                    rows,
                    sel,
                    d,
                    i as int,
                ),
            m == st.cols@.len(),
            st.wf(n as int, p),
            forall|i: int| 0 <= i < done@.len() ==> #[trigger] done@[i] < m,
            col_rows@.len() == n,
            phase1::names_rows(col_rows@, m as int),
            names_done(col_rows@, done@),
            forall|l: int, k: int|
                0 <= l < i && 0 <= k < st.cols@[done@[l] as int]@.len() ==> phase1::lists(
                    col_rows@[#[trigger] st.cols@[done@[l] as int]@[k] as int]@,
                    done@[l] as int,
                ),
        decreases done@.len() - i,
    {
        let r: usize = done[i];
        let ghost lists1 = col_rows@;
        assert(done@[i as int] < m);
        assert(st.row_wf(r as int, n as int, p));
        list_row(&mut col_rows, &st.cols[r], r, n, m);
        proof {
            assert(done@[i as int] == r);
            lemma_names_done(lists1, col_rows@, done@, r);
            assert forall|d: int| 0 <= d < n implies state::ints((#[trigger] col_rows@[d])@)
                == fill::holding(rows, sel, d, i + 1) by {
                assert(state::ints(lists1[d]@) == fill::holding(rows, sel, d, i as int));
                profile::lemma_coef_nonzero(
                    st.cols@[r as int]@,
                    st.vals@[r as int]@,
                    n as int,
                    p,
                    d,
                );
                assert(state::ints(lists1[d]@.push(r)) =~= state::ints(lists1[d]@).push(r as int));
            }
            assert forall|l: int, k: int|
                0 <= l < i + 1 && 0 <= k < st.cols@[done@[l] as int]@.len() implies phase1::lists(
                col_rows@[#[trigger] st.cols@[done@[l] as int]@[k] as int]@,
                done@[l] as int,
            ) by {
                assert(done@[l] < m);
                assert(st.row_wf(done@[l] as int, n as int, p));
                assert(st.cols@[done@[l] as int]@[k] < n);
                if l < i {
                    assert(phase1::lists(
                        lists1[st.cols@[done@[l] as int]@[k] as int]@,
                        done@[l] as int,
                    ));
                }
            }
        }
        i += 1;
    }
    proof {
        let want: Seq<Seq<int>> = fill::start(rows, sel, n as int).held;
        assert forall|d: int| 0 <= d < n implies #[trigger] phase1::lists_of(col_rows@)[d]
            == want[d] by {
            assert(state::ints(col_rows@[d]@) == fill::holding(rows, sel, d, i as int));
        }
        assert(phase1::lists_of(col_rows@) =~= want);
    }
    col_rows
}

/// Reduces the retired rows to reduced row echelon form, scanning columns left to
/// right. Returns the pivot columns and the row that holds each.
pub fn phase2(
    st: &mut RowStore,
    done: &Vec<usize>,
    n: usize,
    mont: &Mont,
    params: &Params,
) -> (res: Result<(Vec<u32>, Vec<usize>), NullspaceError>)
    requires
        mont.wf(),
        n <= u32::MAX,
        old(st).wf(n as int, mont.p as int),
        old(st).live_entries <= params.max_entries,
        done@.no_duplicates(),
        forall|i: int| 0 <= i < done@.len() ==> #[trigger] done@[i] < old(st).cols@.len(),
        nt::is_prime(mont.p as int) ==> rowspace::independent(
            old(st).rows(n as int),
            state::ints(done@),
            n as int,
            mont.p as int,
        ),
    ensures
        res matches Err(e) ==> super::is_fill_refusal(e, params.max_entries)
            && old(st).cols@.len() * n > params.max_entries,
        nt::is_prime(mont.p as int) ==> {
            let end = fill::canonicalize_upto(
                fill::start(old(st).rows(n as int), state::ints(done@), n as int),
                n as int,
                mont.p as int,
                params.max_entries as int,
            );
            match res {
                Err(e) => super::refuses(end, e, 2, params.max_entries),
                Ok(_) => end is Going,
            }
        },
        res matches Ok((piv, rrows)) ==> {
            &&& final(st).wf(n as int, mont.p as int)
            &&& final(st).cols@.len() == old(st).cols@.len()
            &&& final(st).orig == old(st).orig
            &&& piv@.len() == rrows@.len()
            &&& profile::ascending(piv@)
            &&& forall|j: int| 0 <= j < piv@.len() ==> #[trigger] piv@[j] < n
            &&& forall|j: int| 0 <= j < rrows@.len() ==> #[trigger] rrows@[j] < final(st).cols@.len()
            &&& nt::is_prime(mont.p as int) ==> {
                &&& rrows@.len() == done@.len()
                &&& rref::is_rref(
                    reduced_rows(final(st).rows(n as int), rrows@),
                    piv@,
                    n as int,
                    mont.p as int,
                )
                &&& forall|y: Seq<int>|
                    y.len() == n ==> (#[trigger] linalg::in_kernel(
                        reduced_rows(final(st).rows(n as int), rrows@),
                        y,
                        mont.p as int,
                    ) <==> linalg::kills(
                        old(st).rows(n as int),
                        state::ints(done@),
                        y,
                        mont.p as int,
                    ))
            }
        },
{
    let p: u64 = mont.p;
    let ghost q: int = p as int;
    let ghost nn: int = n as int;
    let ghost rows0 = st.rows(nn);
    let ghost d = state::ints(done@);
    let m: usize = st.cols.len();
    let mut col_rows: Vec<Vec<usize>> = start_lists(&*st, done, n, Ghost(q));
    let mut processed: Vec<bool> = vec![false; m];
    let mut piv: Vec<u32> = Vec::new();
    let mut rrows: Vec<usize> = Vec::new();
    let mut col: usize = 0;
    let ghost budget: int = params.max_entries as int;
    let ghost s0 = fill::start(rows0, d, nn);
    proof {
        let s: fill::Stage = stage(
            &*st,
            col_rows@,
            unprocessed(processed@),
            state::ints(rrows@),
            nn,
        );
        assert(s.active =~= s0.active);
        assert(s.done =~= s0.done);
        assert(s =~= s0);
    }
    while col < n
        invariant
            budget == params.max_entries as int,
            s0 == fill::start(rows0, d, nn),
            nt::is_prime(q) ==> fill::canonicalize_upto(s0, col as int, q, budget)
                == fill::Outcome::Going(
                stage(&*st, col_rows@, unprocessed(processed@), state::ints(rrows@), nn),
            ),
            mont.wf(),
            p == mont.p,
            q == p as int,
            nn == n as int,
            n <= u32::MAX,
            col <= n,
            m == old(st).cols@.len(),
            rows0 == old(st).rows(nn),
            d == state::ints(done@),
            st.wf(nn, q),
            st.cols@.len() == m,
            st.orig == old(st).orig,
            st.live_entries <= params.max_entries,
            done@.no_duplicates(),
            forall|i: int| 0 <= i < done@.len() ==> #[trigger] done@[i] < m,
            col_rows@.len() == n,
            phase1::names_rows(col_rows@, m as int),
            names_done(col_rows@, done@),
            processed@.len() == m,
            forall|t: int| 0 <= t < m ==> (#[trigger] processed@[t] <==> rrows@.contains(t as usize)),
            piv@.len() == rrows@.len(),
            profile::ascending(piv@),
            forall|j: int| 0 <= j < piv@.len() ==> #[trigger] piv@[j] < col,
            forall|j: int| 0 <= j < rrows@.len() ==> #[trigger] rrows@[j] < m,
            rrows@.no_duplicates(),
            nt::is_prime(q) ==> {
                &&& forall|j: int| 0 <= j < rrows@.len() ==> done@.contains(#[trigger] rrows@[j])
                &&& listed_from(&*st, done@, col_rows@, col as int)
                &&& canonicalizing(st.rows(nn), done@, rrows@, piv@, nn, col as int)
                &&& rowspace::independent(st.rows(nn), d, nn, q)
                &&& forall|y: Seq<int>|
                    y.len() == n ==> (#[trigger] linalg::kills(st.rows(nn), d, y, q)
                        <==> linalg::kills(rows0, d, y, q))
            },
        decreases n - col,
    {
        let c: u32 = col as u32;
        let mut holders: Vec<usize> = Vec::new();
        let ghost lists0 = col_rows@;
        let ghost s = stage(
            &*st,
            col_rows@,
            unprocessed(processed@),
            state::ints(rrows@),
            nn,
        );
        std::mem::swap(&mut holders, &mut col_rows[col]);
        let ghost hs: Seq<int> = state::ints(holders@);
        let ghost s1 = stage(
            &*st,
            col_rows@,
            unprocessed(processed@),
            state::ints(rrows@),
            nn,
        );
        proof {
            assert(s1.held =~= s.held.update(col as int, Seq::empty())) by {
                assert(state::ints(col_rows@[col as int]@) =~= Seq::<int>::empty());
            }
            assert(s1 =~= fill::unlisted(s, col as int));
            assert(hs =~= s.held[col as int]);
            assert(holders@ == lists0[col as int]@);
            assert forall|k: int| 0 <= k < holders@.len() implies #[trigger] holders@[k] < m by {
                assert(lists0[col as int]@[k] < m);
            }
            assert(phase1::names_rows(col_rows@, m as int)) by {
                assert forall|e: int, k: int|
                    0 <= e < col_rows@.len() && 0 <= k < col_rows@[e]@.len() implies
                #[trigger] col_rows@[e]@[k] < m by {
                    assert(e != col);
                    assert(col_rows@[e]@[k] == lists0[e]@[k]);
                }
            }
            assert(names_done(col_rows@, done@)) by {
                assert forall|e: int, k: int|
                    0 <= e < col_rows@.len() && 0 <= k < col_rows@[e]@.len() implies done@.contains(
                    #[trigger] col_rows@[e]@[k],
                ) by {
                    assert(e != col);
                    assert(col_rows@[e]@[k] == lists0[e]@[k]);
                }
            }
            assert forall|k: int| 0 <= k < holders@.len() implies done@.contains(
                #[trigger] holders@[k],
            ) by {
                assert(done@.contains(lists0[col as int]@[k]));
            }
            if nt::is_prime(q) {
                assert(listed_from(&*st, done@, col_rows@, col + 1)) by {
                    assert forall|i: int, k: int|
                        0 <= i < done@.len() && 0 <= k < st.cols@[done@[i] as int]@.len()
                            && st.cols@[done@[i] as int]@[k] >= col + 1 implies phase1::lists(
                        col_rows@[#[trigger] st.cols@[done@[i] as int]@[k] as int]@,
                        done@[i] as int,
                    ) by {
                        assert(done@[i] < m);
                        assert(st.row_wf(done@[i] as int, nn, q));
                        assert(st.cols@[done@[i] as int]@[k] < nn);
                        assert(phase1::lists(
                            lists0[st.cols@[done@[i] as int]@[k] as int]@,
                            done@[i] as int,
                        ));
                    }
                }
                // A retired row that holds the column is listed under it.
                assert forall|i: int|
                    0 <= i < done@.len() && st.rows(nn)[#[trigger] done@[i] as int][col as int]
                        != 0 implies phase1::lists(holders@, done@[i] as int) by {
                    let t: int = done@[i] as int;
                    assert(done@[i] < m);
                    assert(st.row_wf(t, nn, q));
                    let idx = st.cols@[t]@;
                    profile::lemma_coef_nonzero(idx, st.vals@[t]@, nn, q, col as int);
                    let k: int = choose|k: int|
                        0 <= k < idx.len() && #[trigger] idx[k] == col as int;
                    assert(phase1::lists(lists0[st.cols@[done@[i] as int]@[k] as int]@, t));
                }
            }
        }
        let pivot: Option<usize> = find_pivot_row(
            &*st,
            &holders,
            &processed,
            c,
            Ghost(s),
            Ghost(nn),
            Ghost(q),
        );
        match pivot {
            None => {
                proof {
                    if nt::is_prime(q) {
                        assert forall|i: int, e: int|
                            0 <= i < done@.len() && !rrows@.contains(done@[i]) && 0 <= e < col
                                + 1 implies #[trigger] st.rows(nn)[done@[i] as int][e] == 0 by {
                            if e == col {
                                assert(done@[i] < m);
                                assert(!processed@[done@[i] as int]);
                                if st.rows(nn)[done@[i] as int][col as int] != 0 {
                                    assert(phase1::lists(holders@, done@[i] as int));
                                    let k: int = choose|k: int|
                                        0 <= k < holders@.len() && #[trigger] holders@[k]
                                            == done@[i] as int;
                                    assert(!fill::can_pivot(s, hs, col as int, k));
                                }
                            }
                        }
                    }
                }
            },
            Some(place) => {
                let r: usize = holders[place];
                proof {
                    fill::lemma_lightest(s, hs, col as int, place as int);
                    assert(fill::can_pivot(s, hs, col as int, place as int));
                    assert(holders@[place as int] < m);
                    assert(hs[place as int] == r);
                    assert(holders@[place as int] == r as int);
                    assert(phase1::lists(holders@, r as int));
                }
                let ghost st0 = *st;
                let ghost cur = st.rows(nn);
                assert(st.row_wf(r as int, nn, q));
                let mut pk: usize = 0;
                match st.contains(r, c, Ghost(nn), Ghost(q)) {
                    Some(k) => {
                        pk = k;
                    },
                    None => {},
                }
                let w: u64 = st.vals[r][pk];
                let inv: u64 = invmod(w, p);
                let (sc, sv): (Vec<u32>, Vec<u64>) = scale_row(
                    &st.cols[r],
                    &st.vals[r],
                    inv,
                    mont,
                    Ghost(nn),
                );
                let ghost sc0 = sc@;
                let ghost sv0 = sv@;
                proof {
                    store::lemma_total_update(st.cols@, r as int, sc);
                }
                st.replace(r, sc, sv, Ghost(nn), Ghost(q));
                let ghost st1 = *st;
                proof {
                    if nt::is_prime(q) {
                        assert(cur[r as int][col as int] == w);
                        if nt::cong(w as int, 0, q) {
                            nt::cong_small(w as int, 0, q);
                        }
                        assert(nt::cong(inv * w, 1, q));
                        assert(st.rows(nn)[r as int] == profile::expand(sc0, sv0, nn));
                        assert(st.rows(nn)[r as int][col as int] == (inv * w) % q);
                        nt::cong_mod(inv * w, q);
                        nt::cong_trans((inv * w) % q, inv * w, 1, q);
                        nt::cong_small((inv * w) % q, 1, q);
                        assert(listed_from(&*st, done@, col_rows@, col + 1)) by {
                            assert forall|i: int, k: int|
                                0 <= i < done@.len() && 0 <= k < st.cols@[done@[i] as int]@.len()
                                    && st.cols@[done@[i] as int]@[k] >= col
                                    + 1 implies phase1::lists(
                                col_rows@[#[trigger] st.cols@[done@[i] as int]@[k] as int]@,
                                done@[i] as int,
                            ) by {
                                let t: int = done@[i] as int;
                                assert(done@[i] < m);
                                if t == r {
                                    assert(profile::is_pivot(st0.cols@[t]@, sc0[k] as int));
                                    let l: int = choose|l: int|
                                        0 <= l < st0.cols@[t]@.len() && #[trigger] st0.cols@[t]@[l]
                                            == sc0[k] as int;
                                    assert(phase1::lists(
                                        col_rows@[st0.cols@[done@[i] as int]@[l] as int]@,
                                        t,
                                    ));
                                } else {
                                    assert(st.cols@[t] == st0.cols@[t]);
                                    assert(phase1::lists(
                                        col_rows@[st0.cols@[done@[i] as int]@[k] as int]@,
                                        t,
                                    ));
                                }
                            }
                        }
                    }
                }
                let ghost s2 = stage(
                    &*st,
                    col_rows@,
                    unprocessed(processed@),
                    state::ints(rrows@),
                    nn,
                );
                proof {
                    if nt::is_prime(q) {
                        fill::lemma_quotient_by_inverse(1, w as int, inv as int, q);
                        assert(1 * inv == inv);
                        nt::cong_mod(inv as int, q);
                        nt::cong_small(inv as int % q, inv as int, q);
                        assert(profile::expand(sc0, sv0, nn) =~= fill::normalized(
                            s1.rows[r as int],
                            col as int,
                            q,
                        ));
                        assert(s2.rows == s1.rows.update(
                            r as int,
                            fill::normalized(s1.rows[r as int], col as int, q),
                        ));
                        assert(fill::canonicalize_upto(s0, col + 1, q, budget)
                            == fill::column_step(s, col as int, q, budget));
                        assert(fill::column_step(s, col as int, q, budget) == fill::pivot_on(
                            s2,
                            false,
                            r as int,
                            col as int,
                            hs,
                            q,
                            budget,
                        ));
                    }
                }
                let pivots_done: usize = piv.len();
                match reduce_rows(
                    st,
                    &mut col_rows,
                    &holders,
                    r,
                    c,
                    mont,
                    params.max_entries,
                    pivots_done,
                    n,
                    Ghost(done@),
                    Ghost(unprocessed(processed@)),
                    Ghost(state::ints(rrows@)),
                ) {
                    Err(e) => {
                        proof {
                            if nt::is_prime(q) {
                                fill::lemma_canonicalize_over(s0, col + 1, nn, q, budget);
                            }
                        }
                        return Err(e);
                    },
                    Ok(fs) => {
                        let ghost rrows0 = rrows@;
                        let ghost piv0 = piv@;
                        let ghost processed0 = processed@;
                        processed.set(r, true);
                        piv.push(c);
                        rrows.push(r);
                        proof {
                            assert(unprocessed(processed@) =~= unprocessed(processed0).update(
                                r as int,
                                false,
                            ));
                            assert(state::ints(rrows@) =~= state::ints(rrows0).push(r as int));
                            assert(!rrows0.contains(r)) by {
                                assert(!processed0[r as int]);
                            }
                            assert forall|t: int| 0 <= t < m implies (#[trigger] processed@[t]
                                <==> rrows@.contains(t as usize)) by {
                                if t == r {
                                    assert(rrows@[rrows0.len() as int] == t as usize);
                                } else {
                                    assert(processed0[t] <==> rrows0.contains(t as usize));
                                    if rrows0.contains(t as usize) {
                                        let k: int = choose|k: int|
                                            0 <= k < rrows0.len() && rrows0[k] == t as usize;
                                        assert(rrows@[k] == t as usize);
                                    }
                                    if rrows@.contains(t as usize) {
                                        let k: int = choose|k: int|
                                            0 <= k < rrows@.len() && rrows@[k] == t as usize;
                                        assert(k < rrows0.len());
                                        assert(rrows0[k] == t as usize);
                                    }
                                }
                            }
                            assert(rrows@.no_duplicates()) by {
                                assert forall|i: int, j: int|
                                    0 <= i < rrows@.len() && 0 <= j < rrows@.len() && i
                                        != j implies rrows@[i] != rrows@[j] by {
                                    if i < rrows0.len() && j < rrows0.len() {
                                        assert(rrows0[i] != rrows0[j]);
                                    } else if i < rrows0.len() {
                                        assert(rrows0.contains(rrows0[i]));
                                    } else {
                                        assert(rrows0.contains(rrows0[j]));
                                    }
                                }
                            }
                            if nt::is_prime(q) {
                                let l: int = choose|l: int|
                                    0 <= l < holders@.len() && #[trigger] holders@[l] == r as int;
                                assert(done@.contains(holders@[l]));
                                lemma_phase2_step(
                                    &st0,
                                    &st1,
                                    &*st,
                                    done@,
                                    holders@,
                                    lists0,
                                    rrows0,
                                    piv0,
                                    fs@,
                                    r,
                                    inv,
                                    w,
                                    sc0,
                                    sv0,
                                    nn,
                                    c,
                                    q,
                                );
                                assert forall|j: int| 0 <= j < rrows@.len() implies done@.contains(
                                    #[trigger] rrows@[j],
                                ) by {
                                    if j < rrows0.len() {
                                        assert(done@.contains(rrows0[j]));
                                    }
                                }
                                assert forall|y: Seq<int>| y.len() == n implies (
                                #[trigger] linalg::kills(st.rows(nn), d, y, q) <==> linalg::kills(
                                    rows0,
                                    d,
                                    y,
                                    q,
                                )) by {
                                    assert(linalg::kills(st.rows(nn), d, y, q) <==> linalg::kills(
                                        cur,
                                        d,
                                        y,
                                        q,
                                    ));
                                }
                            }
                        }
                    },
                }
            },
        }
        col += 1;
    }
    proof {
        if nt::is_prime(q) {
            lemma_rows_range(&*st, nn, q);
            lemma_canonical_end(st.rows(nn), done@, rrows@, piv@, nn, q);
            assert forall|y: Seq<int>| y.len() == n implies (#[trigger] linalg::in_kernel(
                reduced_rows(st.rows(nn), rrows@),
                y,
                q,
            ) <==> linalg::kills(rows0, d, y, q)) by {
                assert(linalg::kills(st.rows(nn), d, y, q) <==> linalg::kills(rows0, d, y, q));
            }
        }
    }
    Ok((piv, rrows))
}

/// The pivot step of the canonicalization, as a row operation.
proof fn lemma_phase2_step(
    st0: &RowStore,
    st1: &RowStore,
    st: &RowStore,
    done: Seq<usize>,
    holders: Seq<usize>,
    lists0: Seq<Vec<usize>>,
    rrows: Seq<usize>,
    piv: Seq<u32>,
    fs: Seq<int>,
    r: usize,
    inv: u64,
    w: u64,
    sc: Seq<u32>,
    sv: Seq<u64>,
    n: int,
    col: u32,
    p: int,
)
    requires
        nt::is_prime(p),
        n >= 0,
        col < n,
        st0.wf(n, p),
        st.wf(n, p),
        st1.cols@.len() == st0.cols@.len(),
        st.cols@.len() == st0.cols@.len(),
        r < st0.cols@.len(),
        done.no_duplicates(),
        forall|i: int| 0 <= i < done.len() ==> #[trigger] done[i] < st0.cols@.len(),
        forall|j: int| 0 <= j < rrows.len() ==> done.contains(#[trigger] rrows[j]),
        forall|j: int| 0 <= j < piv.len() ==> #[trigger] piv[j] < col,
        canonicalizing(st0.rows(n), done, rrows, piv, n, col as int),
        rowspace::independent(st0.rows(n), state::ints(done), n, p),
        !rrows.contains(r),
        phase1::lists(holders, r as int),
        holders == lists0[col as int]@,
        forall|i: int|
            0 <= i < done.len() && st0.rows(n)[#[trigger] done[i] as int][col as int] != 0
                ==> phase1::lists(holders, done[i] as int),
        done.contains(r),
        nt::cong(inv * w, 1, p),
        st1.rows(n) == st0.rows(n).update(r as int, profile::expand(sc, sv, n)),
        forall|j: int|
            #[trigger] profile::coef(sc, sv, j) == (inv * profile::coef(
                st0.cols@[r as int]@,
                st0.vals@[r as int]@,
                j,
            )) % p,
        st1.rows(n)[r as int][col as int] == 1,
        st.rows(n)[r as int] == st1.rows(n)[r as int],
        phase1::reduced_by(st1, st, r as int, col as int, fs, n, p),
        forall|k: int|
            0 <= k < holders.len() && #[trigger] holders[k] != r ==> st.rows(
                n,
            )[holders[k] as int][col as int] == 0,
    ensures
        canonicalizing(st.rows(n), done, rrows.push(r), piv.push(col), n, col + 1),
        rowspace::independent(st.rows(n), state::ints(done), n, p),
        forall|y: Seq<int>|
            y.len() == n ==> (#[trigger] linalg::kills(st.rows(n), state::ints(done), y, p)
                <==> linalg::kills(st0.rows(n), state::ints(done), y, p)),
{
    let cur: Seq<Seq<int>> = st0.rows(n);
    let nxt: Seq<Seq<int>> = st.rows(n);
    let d: Seq<int> = state::ints(done);
    let ri: int = choose|i: int| 0 <= i < done.len() && done[i] == r;
    assert(d[ri] == r);
    lemma_rows_range(st0, n, p);
    lemma_rows_range(st, n, p);
    assert(linalg::is_scaled(nxt[r as int], cur[r as int], inv as int, p)) by {
        assert forall|j: int| 0 <= j < n implies nt::cong(
            #[trigger] nxt[r as int][j],
            inv * cur[r as int][j],
            p,
        ) by {
            assert(nxt[r as int][j] == profile::coef(sc, sv, j));
            nt::cong_mod(inv * cur[r as int][j], p);
        }
    }
    assert forall|t: int| 0 <= t < cur.len() && t != r implies linalg::is_axpy(
        #[trigger] nxt[t],
        cur[t],
        nxt[r as int],
        fs[t],
        p,
    ) by {
        assert(linalg::is_axpy(st.rows(n)[t], st1.rows(n)[t], st1.rows(n)[r as int], fs[t], p));
    }
    assert(w * inv == inv * w) by (nonlinear_arith);
    assert forall|k: int| 0 <= k < d.len() implies 0 <= #[trigger] d[k] < cur.len() by {
        assert(done[k] < st0.cols@.len());
    }
    assert(d.no_duplicates()) by {
        assert forall|i: int, j: int| 0 <= i < d.len() && 0 <= j < d.len() && i != j implies d[i]
            != d[j] by {
            assert(done[i] != done[j]);
        }
    }
    rowspace::lemma_row_operation(cur, nxt, d, ri, inv as int, w as int, fs, n, p);
    assert forall|i: int| 0 <= i < done.len() && #[trigger] done[i] != r implies nxt[done[i] as int][col as int]
        == 0 by {
        let t: int = done[i] as int;
        assert(done[i] < st0.cols@.len());
        if cur[t][col as int] != 0 {
            assert(phase1::lists(holders, t));
            let k: int = choose|k: int| 0 <= k < holders.len() && #[trigger] holders[k] == t;
            assert(nxt[holders[k] as int][col as int] == 0);
        } else {
            assert(st.rows(n)[t] == st1.rows(n)[t] || st.rows(n)[t][col as int] == 0);
        }
    }
    lemma_canonical_step(cur, nxt, done, rrows, piv, fs, r, inv as int, n, col, p);
}

} // verus!
