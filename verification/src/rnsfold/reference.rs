//! The scalar lane: plain residue arithmetic, one channel at a time. Its outcome is what
//! every other lane has to reproduce.

use super::batch::{BatchError, RnsFoldBatch, RnsFoldOutcome, ABSENT};
use super::channels;
use super::primes;
use super::primes::{addmod, mulmod, residue_of_limbs, residue_signed, PRIMES};
use crate::limbs;
use crate::nt;
use crate::planes;
use vstd::prelude::*;

verus! {

/// The words of slot `s`.
fn slot_limbs(b: &RnsFoldBatch, s: usize) -> (words: Vec<u64>)
    requires
        b.planes_agree(),
        s < b.n_slots,
    ensures
        words@ == planes::slot_limbs(b.mag@, b.k as int, b.n_slots as int, s as int),
{
    proof {
        planes::lemma_slot_inside(b.mag@.len() as int, b.k as int, b.n_slots as int, s as int);
    }
    let mut words: Vec<u64> = Vec::new();
    let mut l: usize = 0;
    while l < b.k
        invariant
            s < b.n_slots,
            planes::slot_inside(b.mag.len() as int, b.k as int, b.n_slots as int, s as int),
            l <= b.k,
            words@.len() == l,
            forall|j: int| 0 <= j < l ==> words@[j] == #[trigger] planes::slot_limbs(
                b.mag@,
                b.k as int,
                b.n_slots as int,
                s as int,
            )[j],
        decreases b.k - l,
    {
        proof {
            planes::lemma_word_inside(
                b.mag.len() as int,
                b.k as int,
                b.n_slots as int,
                s as int,
                l as int,
            );
        }
        words.push(b.mag[l * b.n_slots + s]);
        l = l + 1;
    }
    words
}

/// The operand at slot `s`, modulo `p`.
fn slot_res(b: &RnsFoldBatch, s: usize, p: u64) -> (r: u64)
    requires
        b.valid(),
        s < b.n_slots,
        p > 0,
    ensures
        r < p,
        nt::cong(r as int, b.operand(s as int), p as int),
{
    let words: Vec<u64> = slot_limbs(b, s);
    let raw: u64 = residue_signed(b.sign[s], words.as_slice(), p);
    let m: u64 = residue_of_limbs(b.mults[b.mult_id[s] as usize].as_slice(), p);
    let r: u64 = mulmod(raw, m, p);
    proof {
        let q: int = p as int;
        let x: int = limbs::signed(b.sign@[s as int], b.slot_mag(s as int));
        let y: int = b.mult_mag(b.mult_id@[s as int] as int) as int;
        nt::cong_mod(x, q);
        nt::cong_mod(y, q);
        nt::cong_mod(raw * m, q);
        nt::cong_times(raw as int, x, m as int, y, q);
        nt::cong_trans(r as int, raw * m, x * y, q);
    }
    r
}

/// Term `i`, modulo `p`.
fn term_res(b: &RnsFoldBatch, i: usize, p: u64) -> (r: u64)
    requires
        b.valid(),
        i < b.csc_lam@.len(),
        p > 0,
    ensures
        r < p,
        nt::cong(r as int, b.product(i as int), p as int),
{
    let l: usize = b.csc_lam[i] as usize;
    let s: usize = b.csc_slot[i] as usize;
    let lam: u64 = residue_signed(b.lams[l].0, b.lams[l].1.as_slice(), p);
    let v: u64 = slot_res(b, s, p);
    let r: u64 = mulmod(lam, v, p);
    proof {
        let q: int = p as int;
        nt::cong_mod(b.lam(l as int), q);
        nt::cong_mod(lam * v, q);
        nt::cong_times(lam as int, b.lam(l as int), v as int, b.operand(s as int), q);
        nt::cong_trans(r as int, lam * v, b.lam(l as int) * b.operand(s as int), q);
    }
    r
}

/// Whether a column's fold agrees with its conclusion modulo `p`.
fn column_agrees(b: &RnsFoldBatch, acol: usize, p: u64) -> (r: bool)
    requires
        b.valid(),
        acol < b.concl_slot@.len(),
        p > 0,
    ensures
        r == nt::cong(b.delta(acol as int), 0, p as int),
{
    let ghost q: int = p as int;
    proof {
        b.lemma_column(acol as int, acol as int);
        nt::cong_refl(0, q);
    }
    assert(acol < b.csc_ptr.len() - 1);
    let n0: usize = b.csc_ptr[acol] as usize;
    let n1: usize = b.csc_ptr[acol + 1] as usize;
    let mut acc: u64 = 0;
    let mut i: usize = n0;
    while i < n1
        invariant
            b.valid(),
            acol < b.concl_slot@.len(),
            p > 0,
            q == p as int,
            n0 == b.csc_ptr@[acol as int],
            n0 <= i <= n1 <= b.csc_lam@.len(),
            acc < p,
            nt::cong(acc as int, b.fold_upto(acol as int, i as int), q),
        decreases n1 - i,
    {
        let t: u64 = term_res(b, i, p);
        let sum: u64 = addmod(acc, t, p);
        proof {
            let fold: int = b.fold_upto(acol as int, i as int);
            nt::cong_mod(acc + t, q);
            nt::cong_plus(acc as int, fold, t as int, b.product(i as int), q);
            nt::cong_trans(sum as int, acc + t, fold + b.product(i as int), q);
        }
        acc = sum;
        i = i + 1;
    }
    let c: u32 = b.concl_slot[acol];
    let cres: u64 = if c == ABSENT {
        0
    } else {
        slot_res(b, c as usize, p)
    };
    proof {
        let fold: int = b.fold_upto(acol as int, n1 as int);
        let concl: int = b.conclusion(acol as int);
        nt::cong_minus(acc as int, fold, cres as int, concl, q);
        if acc == cres {
            nt::cong_sym(0, fold - concl, q);
        } else if nt::cong(fold - concl, 0, q) {
            nt::cong_trans(acc - cres, fold - concl, 0, q);
            nt::small_multiple_is_zero(acc - cres, q);
        }
    }
    acc == cres
}

/// Whether a column agrees in each of the first `c` channels.
fn column_agrees_in_all(b: &RnsFoldBatch, acol: usize, c: usize) -> (r: bool)
    requires
        b.valid(),
        acol < b.concl_slot@.len(),
        c <= 64,
    ensures
        r == (forall|j: int|
            0 <= j < c ==> nt::cong(b.delta(acol as int), 0, #[trigger] primes::prime(j))),
{
    let mut j: usize = 0;
    while j < c
        invariant
            b.valid(),
            acol < b.concl_slot@.len(),
            j <= c <= 64,
            forall|i: int|
                0 <= i < j ==> nt::cong(b.delta(acol as int), 0, #[trigger] primes::prime(i)),
        decreases c - j,
    {
        proof {
            channels::lemma_prime_range(j as int);
        }
        if !column_agrees(b, acol, PRIMES[j]) {
            assert(!nt::cong(b.delta(acol as int), 0, primes::prime(j as int)));
            return false;
        }
        j = j + 1;
    }
    true
}

/// In the planned channels an admitted attempt's column agrees exactly where it folds to
/// its conclusion.
pub proof fn law_planned_channels_decide(b: &RnsFoldBatch, a: int, acol: int)
    requires
        b.valid(),
        0 <= a < b.attempts(),
        !b.beyond_table(a),
        b.acol_ptr@[a] <= acol < b.acol_ptr@[a + 1],
    ensures
        (forall|j: int|
            0 <= j < b.channels() ==> nt::cong(b.delta(acol), 0, #[trigger] primes::prime(j)))
            <==> b.delta(acol) == 0,
{
    b.law_difference_below_bound(a, acol);
    let c: int = channels::needed(b.bound_bits(a)) as int;
    planes::lemma_largest(b.channel_counts(), 0, b.attempts(), a);
    planes::lemma_largest_bound(b.channel_counts(), 0, b.attempts(), 64);
    assert((b.channel_counts())(a) == c);
    channels::lemma_product_exceeds(b.bound_bits(a));
    channels::lemma_product_grows(c, b.channels() as int);
    channels::law_channels_decide_zero(b.delta(acol), b.channels() as int);
}

/// The outcome that every lane has to report of a valid batch.
pub open spec fn exact(b: &RnsFoldBatch, out: RnsFoldOutcome) -> bool {
    &&& out.channels_used == b.channels()
    &&& out.refused@.len() == b.attempts()
    &&& out.fold_ok@.len() == b.attempts()
    &&& forall|a: int| 0 <= a < b.attempts() ==> #[trigger] out.refused@[a] == b.beyond_table(a)
    &&& forall|a: int|
        0 <= a < b.attempts() ==> #[trigger] out.fold_ok@[a] == (!b.beyond_table(a) && b.holds(a))
}

/// What a lane has to answer: the exact outcome of a valid batch, the first defect of any
/// other.
pub open spec fn is_outcome(b: &RnsFoldBatch, r: Result<RnsFoldOutcome, BatchError>) -> bool {
    match r {
        Ok(out) => b.valid() && exact(b, out),
        Err(e) => !b.valid() && b.is_first_defect(e),
    }
}

/// Two answers are the same, field by field.
pub open spec fn same_outcome(
    x: Result<RnsFoldOutcome, BatchError>,
    y: Result<RnsFoldOutcome, BatchError>,
) -> bool {
    match (x, y) {
        (Ok(p), Ok(q)) => p.fold_ok@ == q.fold_ok@ && p.refused@ == q.refused@
            && p.channels_used == q.channels_used,
        (Err(d), Err(e)) => d == e,
        _ => false,
    }
}

/// A batch has one answer, whichever lane gives it.
pub proof fn law_outcome_unique(
    b: &RnsFoldBatch,
    x: Result<RnsFoldOutcome, BatchError>,
    y: Result<RnsFoldOutcome, BatchError>,
)
    requires
        is_outcome(b, x),
        is_outcome(b, y),
    ensures
        same_outcome(x, y),
{
    match (x, y) {
        (Ok(p), Ok(q)) => {
            assert(p.fold_ok@ =~= q.fold_ok@);
            assert(p.refused@ =~= q.refused@);
        },
        (Err(d), Err(e)) => {
            b.lemma_first_defect_unique(d, e);
        },
        _ => {},
    }
}

/// Evaluates the batch. A defective descriptor is refused with its first defect. An
/// attempt whose bound lies beyond the channel table is refused and reported as not
/// holding; of every other attempt the verdict is exact.
pub fn verify(b: &RnsFoldBatch) -> (r: Result<RnsFoldOutcome, BatchError>)
    ensures
        is_outcome(b, r),
{
    match b.validate() {
        Err(e) => {
            return Err(e);
        },
        Ok(()) => {},
    }
    let (channels, refused): (usize, Vec<bool>) = b.plan_channels();
    let n: usize = b.n_attempts();
    let mut fold_ok: Vec<bool> = Vec::new();
    let mut a: usize = 0;
    while a < n
        invariant
            b.valid(),
            a <= n,
            n == b.attempts(),
            channels == b.channels(),
            channels <= 64,
            refused@.len() == n,
            forall|i: int| 0 <= i < n ==> #[trigger] refused@[i] == b.beyond_table(i),
            fold_ok@.len() == a,
            forall|i: int|
                0 <= i < a ==> #[trigger] fold_ok@[i] == (!b.beyond_table(i) && b.holds(i)),
        decreases n - a,
    {
        let mut ok: bool = !refused[a];
        if ok {
            proof {
                b.lemma_attempt(a as int);
            }
            assert(a < b.acol_ptr.len() - 1);
            let lo: usize = b.acol_ptr[a] as usize;
            let hi: usize = b.acol_ptr[a + 1] as usize;
            let mut acol: usize = lo;
            while ok && acol < hi
                invariant
                    b.valid(),
                    a < n,
                    n == b.attempts(),
                    !b.beyond_table(a as int),
                    channels == b.channels(),
                    channels <= 64,
                    lo == b.acol_ptr@[a as int],
                    hi == b.acol_ptr@[a + 1],
                    lo <= acol <= hi <= b.concl_slot@.len(),
                    ok ==> forall|c: int| lo <= c < acol ==> #[trigger] b.delta(c) == 0,
                    !ok ==> !b.holds(a as int),
                decreases hi - acol + (if ok {
                    1int
                } else {
                    0int
                }),
            {
                proof {
                    law_planned_channels_decide(b, a as int, acol as int);
                }
                if column_agrees_in_all(b, acol, channels) {
                    acol = acol + 1;
                } else {
                    ok = false;
                }
            }
        }
        fold_ok.push(ok);
        a = a + 1;
    }
    Ok(RnsFoldOutcome { fold_ok, refused, channels_used: channels })
}

} // verus!
