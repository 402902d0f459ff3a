//! The scalar lane: for every query row, the attempt's pool is scanned in order until a
//! row is equal. Its outcome is what every other lane has to reproduce.

use super::batch::{RowEqBatch, RowEqError, RowEqOutcome};
use crate::limbs;
use crate::planes;
use vstd::prelude::*;

verus! {

/// Words of equal number that spell the same magnitude are the same words.
pub proof fn lemma_words_determined(u: Seq<u64>, v: Seq<u64>, i: int)
    requires
        u.len() == v.len(),
        0 <= i,
    ensures
        limbs::value_from(u, i) == limbs::value_from(v, i) <==> (forall|j: int|
            i <= j < u.len() ==> #[trigger] u[j] == v[j]),
    decreases u.len() - i,
{
    if i < u.len() {
        lemma_words_determined(u, v, i + 1);
        let x: int = limbs::value_from(u, i + 1) as int;
        let y: int = limbs::value_from(v, i + 1) as int;
        assert(limbs::base() * x >= 0 && limbs::base() * y >= 0) by (nonlinear_arith)
            requires
                limbs::base() > 0,
                x >= 0,
                y >= 0,
        ;
        if u[i] == v[i] {
            if x != y {
                assert(limbs::base() * x != limbs::base() * y) by (nonlinear_arith)
                    requires
                        x != y,
                        limbs::base() > 0,
                ;
            }
        } else {
            assert(u[i] + limbs::base() * x != v[i] + limbs::base() * y) by (nonlinear_arith)
                requires
                    u[i] != v[i],
                    0 <= u[i] < limbs::base(),
                    0 <= v[i] < limbs::base(),
            ;
        }
    }
}

/// Whether two slots hold the same value.
fn slots_eq(b: &RowEqBatch, s1: usize, s2: usize) -> (r: bool)
    requires
        b.planes_agree(),
        s1 < b.n_slots,
        s2 < b.n_slots,
    ensures
        r == b.same_value(s1 as int, s2 as int),
{
    if b.sign[s1] != b.sign[s2] || b.den_id[s1] != b.den_id[s2] {
        return false;
    }
    let ghost u: Seq<u64> = planes::slot_limbs(b.mag@, b.k as int, b.n_slots as int, s1 as int);
    let ghost v: Seq<u64> = planes::slot_limbs(b.mag@, b.k as int, b.n_slots as int, s2 as int);
    proof {
        planes::lemma_slot_inside(b.mag@.len() as int, b.k as int, b.n_slots as int, s1 as int);
        planes::lemma_slot_inside(b.mag@.len() as int, b.k as int, b.n_slots as int, s2 as int);
        lemma_words_determined(u, v, 0);
    }
    let mut l: usize = 0;
    while l < b.k
        invariant
            planes::slot_inside(b.mag.len() as int, b.k as int, b.n_slots as int, s1 as int),
            planes::slot_inside(b.mag.len() as int, b.k as int, b.n_slots as int, s2 as int),
            u == planes::slot_limbs(b.mag@, b.k as int, b.n_slots as int, s1 as int),
            v == planes::slot_limbs(b.mag@, b.k as int, b.n_slots as int, s2 as int),
            limbs::value(u) == limbs::value(v) <==> (forall|j: int|
                0 <= j < u.len() ==> #[trigger] u[j] == v[j]),
            l <= b.k,
            forall|j: int| 0 <= j < l ==> #[trigger] u[j] == v[j],
        decreases b.k - l,
    {
        proof {
            planes::lemma_word_inside(
                b.mag.len() as int,
                b.k as int,
                b.n_slots as int,
                s1 as int,
                l as int,
            );
            planes::lemma_word_inside(
                b.mag.len() as int,
                b.k as int,
                b.n_slots as int,
                s2 as int,
                l as int,
            );
        }
        if b.mag[l * b.n_slots + s1] != b.mag[l * b.n_slots + s2] {
            assert(u[l as int] != v[l as int]);
            return false;
        }
        assert(u[l as int] == v[l as int]);
        l = l + 1;
    }
    true
}

/// The entries of row `r` lie inside their planes.
proof fn lemma_row(b: &RowEqBatch, r: int)
    requires
        b.structured(),
        0 <= r < b.rows(),
    ensures
        0 <= b.row_ptr@[r] <= b.row_ptr@[r + 1] <= b.nnz_col@.len(),
{
    assert(b.row_ptr@[r + 1] <= b.row_ptr@[b.row_ptr@.len() - 1]);
}

/// Whether two rows are equal.
fn rows_eq(b: &RowEqBatch, r1: usize, r2: usize) -> (r: bool)
    requires
        b.valid(),
        r1 < b.rows(),
        r2 < b.rows(),
    ensures
        r == b.same_row(r1 as int, r2 as int),
{
    proof {
        lemma_row(b, r1 as int);
        lemma_row(b, r2 as int);
    }
    assert(r1 < b.row_ptr.len() - 1 && r2 < b.row_ptr.len() - 1);
    let a0: usize = b.row_ptr[r1] as usize;
    let a1: usize = b.row_ptr[r1 + 1] as usize;
    let c0: usize = b.row_ptr[r2] as usize;
    let c1: usize = b.row_ptr[r2 + 1] as usize;
    if a1 - a0 != c1 - c0 {
        return false;
    }
    let len: usize = a1 - a0;
    let mut i: usize = 0;
    while i < len
        invariant
            b.valid(),
            i <= len,
            len == b.row_len(r1 as int),
            len == b.row_len(r2 as int),
            a0 == b.row_ptr@[r1 as int],
            c0 == b.row_ptr@[r2 as int],
            a0 + len <= b.nnz_col.len(),
            c0 + len <= b.nnz_col.len(),
            forall|j: int| 0 <= j < i ==> #[trigger] b.same_entry(r1 as int, r2 as int, j),
        decreases len - i,
    {
        let x: usize = a0 + i;
        let y: usize = c0 + i;
        let same: bool = b.nnz_col[x] == b.nnz_col[y] && slots_eq(
            b,
            b.nnz_slot[x] as usize,
            b.nnz_slot[y] as usize,
        );
        assert(same == b.same_entry(r1 as int, r2 as int, i as int));
        if !same {
            return false;
        }
        i = i + 1;
    }
    true
}

/// Whether some row of the pool `lo..hi` equals row `q`.
fn pool_has(b: &RowEqBatch, q: usize, lo: usize, hi: usize) -> (r: bool)
    requires
        b.valid(),
        q < b.rows(),
        hi <= b.rows(),
    ensures
        r == (exists|p: int| lo <= p < hi && #[trigger] b.same_row(q as int, p)),
{
    let mut p: usize = lo;
    while p < hi
        invariant
            b.valid(),
            q < b.rows(),
            hi <= b.rows(),
            lo <= p,
            forall|j: int| lo <= j < p ==> !#[trigger] b.same_row(q as int, j),
        decreases hi - p,
    {
        if rows_eq(b, q, p) {
            return true;
        }
        p = p + 1;
    }
    false
}

/// The outcome that every lane has to report of a valid batch.
pub open spec fn exact(b: &RowEqBatch, out: RowEqOutcome) -> bool {
    &&& out.member_ok@.len() == b.attempts()
    &&& forall|a: int| 0 <= a < b.attempts() ==> #[trigger] out.member_ok@[a] == b.members(a)
}

/// What a lane has to answer: the exact outcome of a valid batch, the first defect of any
/// other.
pub open spec fn is_outcome(b: &RowEqBatch, r: Result<RowEqOutcome, RowEqError>) -> bool {
    match r {
        Ok(out) => b.valid() && exact(b, out),
        Err(e) => !b.valid() && b.is_first_defect(e),
    }
}

/// Two answers are the same.
pub open spec fn same_outcome(
    x: Result<RowEqOutcome, RowEqError>,
    y: Result<RowEqOutcome, RowEqError>,
) -> bool {
    match (x, y) {
        (Ok(p), Ok(q)) => p.member_ok@ == q.member_ok@,
        (Err(d), Err(e)) => d == e,
        _ => false,
    }
}

/// A batch has one answer, whichever lane gives it.
pub proof fn law_outcome_unique(
    b: &RowEqBatch,
    x: Result<RowEqOutcome, RowEqError>,
    y: Result<RowEqOutcome, RowEqError>,
)
    requires
        is_outcome(b, x),
        is_outcome(b, y),
    ensures
        same_outcome(x, y),
{
    match (x, y) {
        (Ok(p), Ok(q)) => {
            assert(p.member_ok@ =~= q.member_ok@);
        },
        (Err(d), Err(e)) => {
            b.lemma_first_defect_unique(d, e);
        },
        _ => {},
    }
}

/// Evaluates the batch: per attempt, whether every query row equals some pool row, which
/// holds of an attempt without query rows. A defective descriptor is refused with its
/// first defect; no attempt of a valid one is.
pub fn verify(b: &RowEqBatch) -> (r: Result<RowEqOutcome, RowEqError>)
    ensures
        is_outcome(b, r),
{
    match b.validate() {
        Err(e) => {
            return Err(e);
        },
        Ok(()) => {},
    }
    let n: usize = b.n_attempts();
    let mut member_ok: Vec<bool> = Vec::new();
    let mut a: usize = 0;
    while a < n
        invariant
            b.valid(),
            a <= n,
            n == b.attempts(),
            n == b.arow_ptr.len() - 1,
            member_ok@.len() == a,
            forall|i: int| 0 <= i < a ==> #[trigger] member_ok@[i] == b.members(i),
        decreases n - a,
    {
        let lo: usize = b.arow_ptr[a] as usize;
        let mid: usize = b.split[a] as usize;
        let hi: usize = b.arow_ptr[a + 1] as usize;
        assert(b.split_ok(a as int));
        assert(b.arow_ptr@[a + 1] <= b.arow_ptr@[b.arow_ptr@.len() - 1]);
        let mut ok: bool = true;
        let mut q: usize = lo;
        while ok && q < mid
            invariant
                b.valid(),
                a < n,
                n == b.attempts(),
                lo == b.arow_ptr@[a as int],
                mid == b.split@[a as int],
                hi == b.arow_ptr@[a + 1],
                lo <= q <= mid <= hi <= b.rows(),
                ok ==> forall|i: int| lo <= i < q ==> #[trigger] b.found(a as int, i),
                !ok ==> !b.members(a as int),
            decreases mid - q + (if ok {
                1int
            } else {
                0int
            }),
        {
            let found: bool = pool_has(b, q, mid, hi);
            assert(found == b.found(a as int, q as int));
            if found {
                q = q + 1;
            } else {
                ok = false;
            }
        }
        member_ok.push(ok);
        a = a + 1;
    }
    Ok(RowEqOutcome { member_ok })
}

} // verus!
