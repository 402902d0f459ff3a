//! What a verdict says of the numbers: whether, in every column, the linear combination of
//! the operands is the conclusion.

use super::batch::{BatchError, RnsFoldBatch, RnsFoldOutcome};
use super::channels;
use super::reference;
use crate::limbs;
use crate::planes;
use crate::roweq::rows;
use vstd::prelude::*;

verus! {

/// The number that words of 64 bits spell, the lowest first.
pub open spec fn numeral(ws: Seq<u64>) -> int
    decreases ws.len(),
{
    if ws.len() == 0 {
        0
    } else {
        ws[0] + 0x1_0000_0000_0000_0000 * numeral(ws.drop_first())
    }
}

/// The words of slot `s`, one from each plane.
pub open spec fn slot_words(b: &RnsFoldBatch, s: int) -> Seq<u64> {
    Seq::new(b.k as nat, |l: int| b.mag@[l * b.n_slots + s])
}

/// What slot `s` stands for: its sign, its numerator and its multiplier.
pub open spec fn slot_number(b: &RnsFoldBatch, s: int) -> int {
    b.sign@[s] * numeral(slot_words(b, s)) * numeral(b.mults@[b.mult_id@[s] as int]@)
}

/// What coefficient `l` stands for.
pub open spec fn coefficient(b: &RnsFoldBatch, l: int) -> int {
    b.lams@[l].0 * numeral(b.lams@[l].1@)
}

/// The sum of the terms from `i` up to `end`, a term being a coefficient times a slot.
pub open spec fn combination(b: &RnsFoldBatch, i: int, end: int) -> int
    decreases end - i,
{
    if i >= end {
        0
    } else {
        coefficient(b, b.csc_lam@[i] as int) * slot_number(b, b.csc_slot@[i] as int) + combination(
            b,
            i + 1,
            end,
        )
    }
}

/// The conclusion of a column: a slot, or zero where the largest id says that there is none.
pub open spec fn concluded(b: &RnsFoldBatch, acol: int) -> int {
    if b.concl_slot@[acol] == 0xffff_ffff {
        0
    } else {
        slot_number(b, b.concl_slot@[acol] as int)
    }
}

/// Words spell the same number either way.
pub proof fn lemma_numeral(ws: Seq<u64>, i: int)
    requires
        0 <= i <= ws.len(),
    ensures
        numeral(ws.subrange(i, ws.len() as int)) == limbs::value_from(ws, i),
    decreases ws.len() - i,
{
    if i < ws.len() {
        lemma_numeral(ws, i + 1);
        assert(ws.subrange(i, ws.len() as int).drop_first() =~= ws.subrange(
            i + 1,
            ws.len() as int,
        ));
    }
}

/// A number under a sign that agrees with it.
proof fn lemma_signed(sign: i8, ws: Seq<u64>)
    requires
        planes::sign_fits(sign, limbs::value(ws)),
    ensures
        sign * numeral(ws) == limbs::signed(sign, limbs::value(ws)),
        numeral(ws) == limbs::value(ws),
{
    lemma_numeral(ws, 0);
    assert(ws.subrange(0, ws.len() as int) =~= ws);
    let m: int = numeral(ws);
    if sign == -1 {
        assert(sign * m == -m) by (nonlinear_arith)
            requires
                sign == -1,
        ;
    } else if sign == 1 {
        assert(sign * m == m) by (nonlinear_arith)
            requires
                sign == 1,
        ;
    } else {
        assert(sign * m == 0) by (nonlinear_arith)
            requires
                sign == 0,
        ;
    }
}

/// A slot of a valid batch.
proof fn lemma_slot(b: &RnsFoldBatch, s: int)
    requires
        b.valid(),
        0 <= s < b.n_slots,
    ensures
        slot_number(b, s) == b.operand(s),
{
    assert(b.slot_ok(s));
    assert(slot_words(b, s) =~= planes::slot_limbs(b.mag@, b.k as int, b.n_slots as int, s));
    lemma_signed(b.sign@[s], slot_words(b, s));
    let ws: Seq<u64> = b.mults@[b.mult_id@[s] as int]@;
    lemma_numeral(ws, 0);
    assert(ws.subrange(0, ws.len() as int) =~= ws);
}

/// A coefficient of a valid batch.
pub proof fn lemma_coefficient(b: &RnsFoldBatch, l: int)
    requires
        b.valid(),
        0 <= l < b.lams@.len(),
    ensures
        coefficient(b, l) == b.lam(l),
{
    assert(b.lam_ok(l));
    lemma_signed(b.lams@[l].0, b.lams@[l].1@);
}

/// The sum of a column's terms, from either end.
proof fn lemma_combination(b: &RnsFoldBatch, acol: int, i: int, end: int)
    requires
        b.valid(),
        b.csc_ptr@[acol] <= i <= end <= b.csc_lam@.len(),
    ensures
        b.fold_upto(acol, end) == b.fold_upto(acol, i) + combination(b, i, end),
    decreases end - i,
{
    if i < end {
        lemma_combination(b, acol, i + 1, end);
        lemma_coefficient(b, b.csc_lam@[i] as int);
        lemma_slot(b, b.csc_slot@[i] as int);
    }
}

/// A column's difference in plain numbers.
proof fn lemma_delta(b: &RnsFoldBatch, acol: int)
    requires
        b.valid(),
        0 <= acol < b.concl_slot@.len(),
    ensures
        b.delta(acol) == combination(b, b.csc_ptr@[acol] as int, b.csc_ptr@[acol + 1] as int)
            - concluded(b, acol),
{
    b.lemma_column(acol, acol);
    lemma_combination(b, acol, b.csc_ptr@[acol] as int, b.csc_ptr@[acol + 1] as int);
    if b.concl_slot@[acol] != 0xffff_ffff {
        lemma_slot(b, b.concl_slot@[acol] as int);
    }
}

/// A verdict is the equality of two numbers, in every column: an attempt that is not refused
/// is accepted exactly where, in each of its columns, the sum of all terms, each a
/// coefficient times a signed numerator times a multiplier, is the conclusion. A refused
/// attempt is not accepted, and there is one verdict for each attempt.
pub proof fn law_verdict_is_linear_combination(b: &RnsFoldBatch, out: RnsFoldOutcome, a: int)
    requires
        reference::is_outcome(b, Ok(out)),
        0 <= a < b.acol_ptr@.len() - 1,
    ensures
        out.fold_ok@.len() == b.acol_ptr@.len() - 1,
        out.refused@.len() == b.acol_ptr@.len() - 1,
        out.refused@[a] ==> !out.fold_ok@[a],
        !out.refused@[a] ==> (out.fold_ok@[a] <==> forall|acol: int|
            b.acol_ptr@[a] <= acol < b.acol_ptr@[a + 1] ==> #[trigger] combination(
                b,
                b.csc_ptr@[acol] as int,
                b.csc_ptr@[acol + 1] as int,
            ) == concluded(b, acol)),
{
    assert(out.refused@[a] == b.beyond_table(a));
    assert(out.fold_ok@[a] == (!b.beyond_table(a) && b.holds(a)));
    b.lemma_attempt(a);
    assert forall|acol: int| b.acol_ptr@[a] <= acol < b.acol_ptr@[a + 1] implies (
    #[trigger] b.delta(acol) == 0 <==> combination(
        b,
        b.csc_ptr@[acol] as int,
        b.csc_ptr@[acol + 1] as int,
    ) == concluded(b, acol)) by {
        lemma_delta(b, acol);
    }
    if b.holds(a) {
        assert forall|acol: int|
            b.acol_ptr@[a] <= acol < b.acol_ptr@[a + 1] implies #[trigger] combination(
            b,
            b.csc_ptr@[acol] as int,
            b.csc_ptr@[acol + 1] as int,
        ) == concluded(b, acol) by {
            assert(b.delta(acol) == 0);
        }
    }
    if forall|acol: int|
        b.acol_ptr@[a] <= acol < b.acol_ptr@[a + 1] ==> #[trigger] combination(
            b,
            b.csc_ptr@[acol] as int,
            b.csc_ptr@[acol + 1] as int,
        ) == concluded(b, acol) {
        assert forall|acol: int|
            b.acol_ptr@[a] <= acol < b.acol_ptr@[a + 1] implies #[trigger] b.delta(acol) == 0 by {
            assert(combination(b, b.csc_ptr@[acol] as int, b.csc_ptr@[acol + 1] as int)
                == concluded(b, acol));
        }
    }
}

/// The channels counted for a number of bits are the fewest whose sixty-two bits each exceed
/// it, or all sixty-four where these are just enough; beyond that there are none.
pub proof fn law_fewest_channels(bits: nat, c: nat)
    ensures
        channels::too_many(bits) <==> bits > 62 * 64,
        bits < 62 * 64 ==> bits < 62 * channels::needed(bits),
        bits < 62 * 64 && bits < 62 * c ==> channels::needed(bits) <= c,
        bits == 62 * 64 ==> channels::needed(bits) == 64,
{
}

/// The largest value is zero or taken somewhere.
proof fn lemma_largest_taken(f: spec_fn(int) -> nat, lo: int, hi: int)
    ensures
        planes::largest(f, lo, hi) == 0 || exists|i: int|
            lo <= i < hi && #[trigger] f(i) == planes::largest(f, lo, hi),
    decreases hi - lo,
{
    if lo < hi {
        lemma_largest_taken(f, lo, hi - 1);
        let rest: nat = planes::largest(f, lo, hi - 1);
        if f(hi - 1) > rest {
            assert(f(hi - 1) == planes::largest(f, lo, hi));
        } else if rest > 0 {
            let i: int = choose|i: int| lo <= i < hi - 1 && #[trigger] f(i) == rest;
            assert(lo <= i < hi && f(i) == planes::largest(f, lo, hi));
        }
    }
}

/// The channels that are used are enough for every attempt that is not refused, and no more
/// than one of them, or a single channel, asks for. Exactly the attempts whose bound exceeds
/// the table are refused.
pub proof fn law_channels_cover(b: &RnsFoldBatch, out: RnsFoldOutcome)
    requires
        reference::is_outcome(b, Ok(out)),
    ensures
        forall|a: int|
            0 <= a < b.acol_ptr@.len() - 1 ==> (#[trigger] out.refused@[a] <==> b.bound_bits(a) > 62
                * 64),
        forall|a: int|
            0 <= a < b.acol_ptr@.len() - 1 && !#[trigger] out.refused@[a] ==> channels::needed(
                b.bound_bits(a),
            ) <= out.channels_used,
        out.channels_used == 1 || exists|a: int|
            0 <= a < b.acol_ptr@.len() - 1 && !#[trigger] out.refused@[a] && channels::needed(
                b.bound_bits(a),
            ) == out.channels_used,
{
    let f = b.channel_counts();
    let n: int = b.attempts();
    assert forall|a: int| 0 <= a < n implies (#[trigger] out.refused@[a] <==> b.bound_bits(a) > 62
        * 64) by {
        assert(out.refused@[a] == b.beyond_table(a));
    }
    assert forall|a: int| 0 <= a < n && !#[trigger] out.refused@[a] implies channels::needed(
        b.bound_bits(a),
    ) <= out.channels_used by {
        planes::lemma_largest(f, 0, n, a);
    }
    lemma_largest_taken(f, 0, n);
    if out.channels_used != 1 {
        let a: int = choose|a: int| 0 <= a < n && #[trigger] f(a) == planes::largest(f, 0, n);
        assert(!out.refused@[a]);
    }
}

/// The bound of an attempt leaves two bits above what its widest column can need, and not
/// more: above the width of every conclusion, and above the widths of any coefficient, any
/// operand and any number of terms together.
pub proof fn law_bound_leaves_two_bits(b: &RnsFoldBatch, a: int)
    requires
        b.valid(),
        0 <= a < b.attempts(),
    ensures
        ({
            let lo = b.acol_ptr@[a] as int;
            let hi = b.acol_ptr@[a + 1] as int;
            let first = b.csc_ptr@[lo] as int;
            let end = b.csc_ptr@[hi] as int;
            &&& b.bound_bits(a) >= 2
            &&& forall|c: int| lo <= c < hi ==> #[trigger] b.concl_width(c) + 2 <= b.bound_bits(a)
            &&& forall|i: int, j: int, c: int|
                first <= i < end && first <= j < end && lo <= c < hi ==> #[trigger] b.lam_width(i)
                    + b.slot_width(#[trigger] b.csc_slot@[j] as int) + limbs::bit_len(
                    #[trigger] b.terms(c),
                ) + 2 <= b.bound_bits(a)
            &&& b.bound_bits(a) == 2 || (exists|c: int|
                lo <= c < hi && #[trigger] b.concl_width(c) + 2 == b.bound_bits(a)) || (exists|
                w: nat,
                v: nat,
                t: nat,
            |
                #[trigger] taken(b, a, w, v, t) && w + v + limbs::bit_len(t) + 2 == b.bound_bits(a))
        }),
{
    let lo: int = b.acol_ptr@[a] as int;
    let hi: int = b.acol_ptr@[a + 1] as int;
    let first: int = b.csc_ptr@[lo] as int;
    let end: int = b.csc_ptr@[hi] as int;
    let w: nat = planes::largest(b.lam_widths(), first, end);
    let v: nat = planes::largest(b.slot_widths(), first, end);
    let t: nat = planes::largest(b.term_counts(), lo, hi);
    let x: nat = planes::largest(b.concl_widths(), lo, hi);
    assert forall|c: int| lo <= c < hi implies #[trigger] b.concl_width(c) + 2
        <= b.bound_bits(a) by {
        planes::lemma_largest(b.concl_widths(), lo, hi, c);
        assert((b.concl_widths())(c) == b.concl_width(c));
    }
    assert forall|i: int, j: int, c: int|
        first <= i < end && first <= j < end && lo <= c < hi implies #[trigger] b.lam_width(i)
        + b.slot_width(#[trigger] b.csc_slot@[j] as int) + limbs::bit_len(#[trigger] b.terms(c)) + 2
        <= b.bound_bits(a) by {
        planes::lemma_largest(b.lam_widths(), first, end, i);
        planes::lemma_largest(b.slot_widths(), first, end, j);
        planes::lemma_largest(b.term_counts(), lo, hi, c);
        assert((b.lam_widths())(i) == b.lam_width(i));
        assert((b.slot_widths())(j) == b.slot_width(b.csc_slot@[j] as int));
        assert((b.term_counts())(c) == b.terms(c));
        lemma_bit_len_grows(b.terms(c), t);
    }
    lemma_largest_taken(b.lam_widths(), first, end);
    lemma_largest_taken(b.slot_widths(), first, end);
    lemma_largest_taken(b.term_counts(), lo, hi);
    lemma_largest_taken(b.concl_widths(), lo, hi);
    if w + v + limbs::bit_len(t) > x {
        assert(taken(b, a, w, v, t));
        assert(w + v + limbs::bit_len(t) + 2 == b.bound_bits(a));
    } else if x > 0 {
        let c: int = choose|c: int| lo <= c < hi && #[trigger] (b.concl_widths())(c) == x;
        assert(b.concl_width(c) + 2 == b.bound_bits(a));
    }
}

/// Each of the three numbers is zero or that of a coefficient, an operand and a column of the
/// attempt.
pub open spec fn taken(b: &RnsFoldBatch, a: int, w: nat, v: nat, t: nat) -> bool {
    let lo = b.acol_ptr@[a] as int;
    let hi = b.acol_ptr@[a + 1] as int;
    let first = b.csc_ptr@[lo] as int;
    let end = b.csc_ptr@[hi] as int;
    &&& w == 0 || exists|i: int| first <= i < end && #[trigger] (b.lam_widths())(i) == w
    &&& v == 0 || exists|i: int| first <= i < end && #[trigger] (b.slot_widths())(i) == v
    &&& t == 0 || exists|c: int| lo <= c < hi && #[trigger] (b.term_counts())(c) == t
}

/// More needs no fewer bits.
proof fn lemma_bit_len_grows(x: nat, y: nat)
    requires
        x <= y,
    ensures
        limbs::bit_len(x) <= limbs::bit_len(y),
    decreases x,
{
    if x > 0 {
        lemma_bit_len_grows(x / 2, y / 2);
    }
}

/// A sign is minus one, zero or one, and zero exactly where all words are zero.
pub open spec fn signed_well(sign: i8, ws: Seq<u64>) -> bool {
    &&& sign == -1 || sign == 0 || sign == 1
    &&& sign == 0 <==> (forall|l: int| 0 <= l < ws.len() ==> #[trigger] ws[l] == 0)
}

/// What a refusal says of a descriptor.
pub open spec fn complains(b: &RnsFoldBatch, e: BatchError) -> bool {
    match e {
        BatchError::Structure(_) => {
            ||| b.sign@.len() != b.n_slots
            ||| b.mult_id@.len() != b.n_slots
            ||| b.mag@.len() != b.k * b.n_slots
            ||| !rows::climbs(b.acol_ptr@, b.concl_slot@.len() as int)
            ||| !rows::climbs(b.csc_ptr@, b.csc_lam@.len() as int)
            ||| b.csc_lam@.len() != b.csc_slot@.len()
            ||| b.csc_ptr@.len() != b.concl_slot@.len() + 1
        },
        BatchError::Sign(i) => {
            ||| i < b.lams@.len() && !signed_well(b.lams@[i as int].0, b.lams@[i as int].1@)
            ||| i < b.n_slots && !signed_well(b.sign@[i as int], slot_words(b, i as int))
        },
        BatchError::ZeroMult(i) => {
            &&& i < b.mults@.len()
            &&& forall|l: int|
                0 <= l < b.mults@[i as int]@.len() ==> #[trigger] b.mults@[i as int]@[l] == 0
        },
        BatchError::Index(_) => {
            ||| exists|i: int|
                0 <= i < b.csc_lam@.len() && #[trigger] b.csc_lam@[i] >= b.lams@.len()
            ||| exists|i: int|
                0 <= i < b.csc_slot@.len() && #[trigger] b.csc_slot@[i] >= b.n_slots
            ||| exists|i: int|
                0 <= i < b.concl_slot@.len() && #[trigger] b.concl_slot@[i] != 0xffff_ffff
                    && b.concl_slot@[i] >= b.n_slots
            ||| exists|i: int|
                0 <= i < b.mult_id@.len() && #[trigger] b.mult_id@[i] >= b.mults@.len()
        },
    }
}

/// A sign, word by word.
proof fn lemma_signed_well(sign: i8, ws: Seq<u64>)
    ensures
        planes::sign_fits(sign, limbs::value(ws)) <==> signed_well(sign, ws),
{
    rows::lemma_zero_words(ws, 0);
}

/// A descriptor is refused exactly where a refusal is true of it, and the refusal that is
/// given is: the pointer planes climb and cover, every sign agrees with its words, every
/// multiplier is positive, every index names something, or the refusal says which does not.
pub proof fn law_refusals_are_true(b: &RnsFoldBatch, e: BatchError)
    ensures
        b.is_first_defect(e) ==> complains(b, e),
        b.valid() ==> !complains(b, e),
{
    rows::lemma_climbs(b.acol_ptr@, b.concl_slot@.len() as int);
    rows::lemma_climbs(b.csc_ptr@, b.csc_lam@.len() as int);
    match e {
        BatchError::Sign(i) => {
            lemma_signed_well(b.lams@[i as int].0, b.lams@[i as int].1@);
            lemma_signed_well(b.sign@[i as int], slot_words(b, i as int));
            assert(slot_words(b, i as int) =~= planes::slot_limbs(
                b.mag@,
                b.k as int,
                b.n_slots as int,
                i as int,
            ));
            if b.valid() {
                if i < b.lams@.len() {
                    assert(b.lam_ok(i as int));
                }
                if i < b.n_slots {
                    assert(b.slot_ok(i as int));
                }
            }
        },
        BatchError::ZeroMult(i) => {
            if i < b.mults@.len() {
                rows::lemma_zero_words(b.mults@[i as int]@, 0);
                if b.valid() {
                    assert(b.mult_ok(i as int));
                }
            }
        },
        _ => {},
    }
}

} // verus!
