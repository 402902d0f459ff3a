//! The batch descriptor: the one shape that every lane of the family consumes, and the
//! home of the bound from which the number of channels is chosen.

use super::channels;
use super::primes::{bits_of_limbs, channels_for_bits};
use crate::limbs;
use crate::nt;
use crate::par::{par_any, par_map};
use crate::planes::{monotone_from_zero, sign_agrees, slot_bits};
use crate::planes;
use crate::text::{push_decimal, push_text};
use crate::text;
use vstd::arithmetic::power2::{lemma_pow2_adds, lemma_pow2_pos, lemma_pow2_strictly_increases, lemma_pow2_unfold, pow2};
use vstd::prelude::*;

verus! {

/// No conclusion value at a column: the fold is compared against zero there.
pub const ABSENT: u32 = 0xffff_ffff;

/// One batched linear-combination equality problem.
///
/// An attempt is a range of columns (`acol_ptr`); a column is a range of terms
/// (`csc_ptr`); a term is a coefficient and a value slot. A slot carries a signed
/// numerator as limb planes and the index of a positive multiplier; the operand of the
/// fold is the numerator times the multiplier.
#[derive(Debug, Clone, Default, PartialEq, Eq)]
pub struct RnsFoldBatch {
    /// Limb count of the magnitude planes.
    pub k: usize,
    /// Number of value slots.
    pub n_slots: usize,
    /// Per slot: -1, 0 or 1.
    pub sign: Vec<i8>,
    /// Magnitude planes: limb `l` of slot `s` at `l * n_slots + s`.
    pub mag: Vec<u64>,
    /// Per slot: index into `mults`.
    pub mult_id: Vec<u32>,
    /// Positive multipliers, least significant limb first.
    pub mults: Vec<Vec<u64>>,
    /// Combination coefficients: sign and magnitude limbs.
    pub lams: Vec<(i8, Vec<u64>)>,
    /// Attempt to column range.
    pub acol_ptr: Vec<u32>,
    /// Column to term range.
    pub csc_ptr: Vec<u32>,
    /// Per term: the coefficient.
    pub csc_lam: Vec<u32>,
    /// Per term: the value slot.
    pub csc_slot: Vec<u32>,
    /// Per column: the slot of the conclusion value, or [`ABSENT`].
    pub concl_slot: Vec<u32>,
}

/// What a lane reports, per attempt.
#[derive(Debug, Clone, PartialEq, Eq)]
pub struct RnsFoldOutcome {
    /// Every column's fold equals the conclusion. Meaningful only where `refused` is
    /// false.
    pub fold_ok: Vec<bool>,
    /// The channel table does not cover the attempt's bound; no verdict was produced.
    pub refused: Vec<bool>,
    /// Channels evaluated.
    pub channels_used: usize,
}

/// A structural defect in a descriptor.
#[derive(Debug, Clone, PartialEq, Eq)]
pub enum BatchError {
    /// A plane's length or a pointer plane is malformed.
    Structure(&'static str),
    /// An index plane refers past its target's length.
    Index(&'static str),
    /// A sign is none of -1, 0, 1, or disagrees with its magnitude.
    Sign(usize),
    /// A multiplier is zero.
    ZeroMult(usize),
}

impl BatchError {
    /// What the refusal says.
    pub open spec fn rendered(self) -> Seq<char> {
        match self {
            BatchError::Structure(what) => "malformed pointer plane: "@ + what@,
            BatchError::Index(what) => "index out of range: "@ + what@,
            BatchError::Sign(i) => "slot "@ + text::decimal(i as int) + ": sign not in -1/0/+1 or zero-inconsistent"@,
            BatchError::ZeroMult(i) => "mult "@ + text::decimal(i as int) + " is zero (multipliers are positive)"@,
        }
    }

    /// The text of the refusal.
    pub fn text(&self) -> (r: String)
        ensures
            r@ == self.rendered(),
    {
        let mut s: String = String::new();
        match self {
            BatchError::Structure(what) => {
                push_text(&mut s, "malformed pointer plane: ");
                push_text(&mut s, *what);
            },
            BatchError::Index(what) => {
                push_text(&mut s, "index out of range: ");
                push_text(&mut s, *what);
            },
            BatchError::Sign(i) => {
                push_text(&mut s, "slot ");
                push_decimal(&mut s, *i as u64);
                push_text(&mut s, ": sign not in -1/0/+1 or zero-inconsistent");
            },
            BatchError::ZeroMult(i) => {
                push_text(&mut s, "mult ");
                push_decimal(&mut s, *i as u64);
                push_text(&mut s, " is zero (multipliers are positive)");
            },
        }
        assert(s@ =~= self.rendered());
        s
    }
}

impl RnsFoldBatch {
    /// The number of attempts.
    pub open spec fn attempts(&self) -> int {
        if self.acol_ptr@.len() == 0 {
            0
        } else {
            self.acol_ptr@.len() - 1
        }
    }

    /// The magnitude of slot `s`.
    pub open spec fn slot_mag(&self, s: int) -> nat {
        planes::slot_value(self.mag@, self.k as int, self.n_slots as int, s)
    }

    /// The magnitude of multiplier `m`.
    pub open spec fn mult_mag(&self, m: int) -> nat {
        limbs::value(self.mults@[m]@)
    }

    /// The magnitude of coefficient `l`.
    pub open spec fn lam_mag(&self, l: int) -> nat {
        limbs::value(self.lams@[l].1@)
    }

    /// The operand at slot `s`.
    pub open spec fn operand(&self, s: int) -> int {
        limbs::signed(self.sign@[s], self.slot_mag(s)) * self.mult_mag(self.mult_id@[s] as int)
    }

    /// Coefficient `l`.
    pub open spec fn lam(&self, l: int) -> int {
        limbs::signed(self.lams@[l].0, self.lam_mag(l))
    }

    /// Term `i`: a coefficient times an operand.
    pub open spec fn product(&self, i: int) -> int {
        self.lam(self.csc_lam@[i] as int) * self.operand(self.csc_slot@[i] as int)
    }

    /// The sum of a column's terms before term `i`.
    pub open spec fn fold_upto(&self, acol: int, i: int) -> int
        decreases i - self.csc_ptr@[acol],
    {
        if i <= self.csc_ptr@[acol] {
            0
        } else {
            self.fold_upto(acol, i - 1) + self.product(i - 1)
        }
    }

    /// The conclusion value of a column.
    pub open spec fn conclusion(&self, acol: int) -> int {
        if self.concl_slot@[acol] == ABSENT {
            0
        } else {
            self.operand(self.concl_slot@[acol] as int)
        }
    }

    /// The difference that a column is asked about.
    pub open spec fn delta(&self, acol: int) -> int {
        self.fold_upto(acol, self.csc_ptr@[acol + 1] as int) - self.conclusion(acol)
    }

    /// Every column of attempt `a` folds to its conclusion.
    pub open spec fn holds(&self, a: int) -> bool {
        forall|acol: int|
            self.acol_ptr@[a] <= acol < self.acol_ptr@[a + 1] ==> #[trigger] self.delta(acol) == 0
    }

    /// The slot planes have the lengths that `n_slots` and `k` name.
    pub open spec fn planes_agree(&self) -> bool {
        &&& self.sign@.len() == self.n_slots
        &&& self.mag@.len() == self.k * self.n_slots
        &&& self.mult_id@.len() == self.n_slots
    }

    /// The attempts cover the columns.
    pub open spec fn attempts_rise(&self) -> bool {
        planes::rises(self.acol_ptr@, self.concl_slot@.len() as int)
    }

    /// The columns cover the terms.
    pub open spec fn columns_rise(&self) -> bool {
        planes::rises(self.csc_ptr@, self.csc_lam@.len() as int)
    }

    /// The pointer planes and the lengths of all planes agree.
    pub open spec fn structured(&self) -> bool {
        &&& self.planes_agree()
        &&& self.attempts_rise()
        &&& self.columns_rise()
        &&& self.csc_lam@.len() == self.csc_slot@.len()
        &&& self.csc_ptr@.len() == self.concl_slot@.len() + 1
    }

    /// The sign of coefficient `l` agrees with its magnitude.
    pub open spec fn lam_ok(&self, l: int) -> bool {
        planes::sign_fits(self.lams@[l].0, self.lam_mag(l))
    }

    /// The sign of slot `s` agrees with its magnitude.
    pub open spec fn slot_ok(&self, s: int) -> bool {
        planes::sign_fits(self.sign@[s], self.slot_mag(s))
    }

    /// Multiplier `m` is positive.
    pub open spec fn mult_ok(&self, m: int) -> bool {
        self.mult_mag(m) > 0
    }

    /// Every coefficient's sign agrees.
    pub open spec fn lams_ok(&self) -> bool {
        forall|l: int| 0 <= l < self.lams@.len() ==> self.lam_ok(l)
    }

    /// Every slot's sign agrees.
    pub open spec fn slots_ok(&self) -> bool {
        forall|s: int| 0 <= s < self.n_slots ==> self.slot_ok(s)
    }

    /// Every multiplier is positive.
    pub open spec fn mults_ok(&self) -> bool {
        forall|m: int| 0 <= m < self.mults@.len() ==> self.mult_ok(m)
    }

    /// Every term names a coefficient.
    pub open spec fn lam_ids_ok(&self) -> bool {
        forall|i: int| 0 <= i < self.csc_lam@.len() ==> self.csc_lam@[i] < self.lams@.len()
    }

    /// Every term names a slot.
    pub open spec fn slot_ids_ok(&self) -> bool {
        forall|i: int| 0 <= i < self.csc_slot@.len() ==> self.csc_slot@[i] < self.n_slots
    }

    /// Every conclusion names a slot or is absent.
    pub open spec fn concl_ids_ok(&self) -> bool {
        forall|i: int|
            0 <= i < self.concl_slot@.len() ==> self.concl_slot@[i] == ABSENT
                || self.concl_slot@[i] < self.n_slots
    }

    /// Every slot names a multiplier.
    pub open spec fn mult_ids_ok(&self) -> bool {
        forall|s: int| 0 <= s < self.mult_id@.len() ==> self.mult_id@[s] < self.mults@.len()
    }

    /// The values that the planes carry are sound.
    pub open spec fn values_ok(&self) -> bool {
        self.lams_ok() && self.slots_ok() && self.mults_ok()
    }

    /// A descriptor that the lanes accept.
    pub open spec fn valid(&self) -> bool {
        &&& self.structured()
        &&& self.values_ok()
        &&& self.lam_ids_ok()
        &&& self.slot_ids_ok()
        &&& self.concl_ids_ok()
        &&& self.mult_ids_ok()
    }

    /// `e` names the first defect, in the order in which the planes are walked.
    pub open spec fn is_first_defect(&self, e: BatchError) -> bool {
        match e {
            BatchError::Structure(what) => if !self.planes_agree() {
                what == "slot planes disagree with n_slots/k"
            } else if !self.attempts_rise() {
                what == "acol_ptr"
            } else if !self.columns_rise() {
                what == "csc_ptr"
            } else if self.csc_lam@.len() != self.csc_slot@.len() {
                what == "csc_lam/csc_slot lengths differ"
            } else {
                !self.structured() && what == "csc_ptr does not cover the acol space"
            },
            BatchError::Sign(i) => self.structured() && if !self.lams_ok() {
                i < self.lams@.len() && !self.lam_ok(i as int) && forall|j: int|
                    0 <= j < i ==> self.lam_ok(j)
            } else {
                i < self.n_slots && !self.slot_ok(i as int) && forall|j: int|
                    0 <= j < i ==> self.slot_ok(j)
            },
            BatchError::ZeroMult(i) => {
                &&& self.structured() && self.lams_ok() && self.slots_ok()
                &&& i < self.mults@.len() && !self.mult_ok(i as int)
                &&& forall|j: int| 0 <= j < i ==> self.mult_ok(j)
            },
            BatchError::Index(what) => self.structured() && self.values_ok() && if !self.lam_ids_ok() {
                what == "csc_lam"
            } else if !self.slot_ids_ok() {
                what == "csc_slot"
            } else if !self.concl_ids_ok() {
                what == "concl_slot"
            } else {
                !self.mult_ids_ok() && what == "mult_id"
            },
        }
    }

    /// A descriptor has one first defect.
    pub proof fn lemma_first_defect_unique(&self, d: BatchError, e: BatchError)
        requires
            self.is_first_defect(d),
            self.is_first_defect(e),
        ensures
            d == e,
    {
        match (d, e) {
            (BatchError::Sign(i), BatchError::Sign(j)) => {
                if i < j {
                    assert(self.lam_ok(i as int) || self.slot_ok(i as int));
                } else if j < i {
                    assert(self.lam_ok(j as int) || self.slot_ok(j as int));
                }
            },
            (BatchError::ZeroMult(i), BatchError::ZeroMult(j)) => {
                if i < j {
                    assert(self.mult_ok(i as int));
                } else if j < i {
                    assert(self.mult_ok(j as int));
                }
            },
            _ => {},
        }
    }

    /// The width of the coefficient of term `i`.
    pub open spec fn lam_width(&self, i: int) -> nat {
        limbs::bit_len(self.lam_mag(self.csc_lam@[i] as int))
    }

    /// The width of the operand at slot `s`.
    pub open spec fn slot_width(&self, s: int) -> nat {
        limbs::bit_len(self.slot_mag(s)) + limbs::bit_len(self.mult_mag(self.mult_id@[s] as int))
    }

    /// The width of the conclusion of a column.
    pub open spec fn concl_width(&self, acol: int) -> nat {
        if self.concl_slot@[acol] == ABSENT {
            0
        } else {
            self.slot_width(self.concl_slot@[acol] as int)
        }
    }

    /// The number of terms of a column.
    pub open spec fn terms(&self, acol: int) -> nat {
        (self.csc_ptr@[acol + 1] - self.csc_ptr@[acol]) as nat
    }

    /// The coefficient widths, by term.
    pub open spec fn lam_widths(&self) -> spec_fn(int) -> nat {
        |i: int| self.lam_width(i)
    }

    /// The operand widths, by term.
    pub open spec fn slot_widths(&self) -> spec_fn(int) -> nat {
        |i: int| self.slot_width(self.csc_slot@[i] as int)
    }

    /// The conclusion widths, by column.
    pub open spec fn concl_widths(&self) -> spec_fn(int) -> nat {
        |acol: int| self.concl_width(acol)
    }

    /// The term counts, by column.
    pub open spec fn term_counts(&self) -> spec_fn(int) -> nat {
        |acol: int| self.terms(acol)
    }

    /// The bits that bound the differences of attempt `a`: two more than the larger of
    /// the conclusion width and the widths of coefficients, operands and term counts
    /// together.
    pub open spec fn bound_bits(&self, a: int) -> nat {
        let lo = self.acol_ptr@[a] as int;
        let hi = self.acol_ptr@[a + 1] as int;
        let first = self.csc_ptr@[lo] as int;
        let end = self.csc_ptr@[hi] as int;
        let fold = planes::largest(self.lam_widths(), first, end) + planes::largest(
            self.slot_widths(),
            first,
            end,
        ) + limbs::bit_len(planes::largest(self.term_counts(), lo, hi));
        let concl = planes::largest(self.concl_widths(), lo, hi);
        2 + if fold > concl {
            fold
        } else {
            concl
        }
    }

    /// The channel table does not cover the bound of attempt `a`.
    pub open spec fn beyond_table(&self, a: int) -> bool {
        channels::too_many(self.bound_bits(a))
    }

    /// The channels that attempt `a` asks for, none where it is refused.
    pub open spec fn channel_counts(&self) -> spec_fn(int) -> nat {
        |a: int|
            if self.beyond_table(a) {
                0
            } else {
                channels::needed(self.bound_bits(a))
            }
    }

    /// The channels that cover every admitted attempt, at least one.
    pub open spec fn channels(&self) -> nat {
        let most = planes::largest(self.channel_counts(), 0, self.attempts());
        if most > 1 {
            most
        } else {
            1
        }
    }
}

impl RnsFoldBatch {
    /// Descriptors with at least this many slots or terms are scanned by the thread pool
    /// before the serial walk.
    pub const VALIDATE_PAR_MIN: usize = 0x1_0000;

    /// The number of attempts.
    pub fn n_attempts(&self) -> (n: usize)
        ensures
            n == self.attempts(),
    {
        if self.acol_ptr.len() == 0 {
            0
        } else {
            self.acol_ptr.len() - 1
        }
    }

    /// The bit length of the raw magnitude of slot `s`. A length that a word cannot hold
    /// is reported as the largest word.
    pub fn slot_bits(&self, s: usize) -> (r: u64)
        requires
            planes::slot_inside(
                self.mag@.len() as int,
                self.k as int,
                self.n_slots as int,
                s as int,
            ),
        ensures
            r == limbs::capped(limbs::bit_len(self.slot_mag(s as int))),
    {
        slot_bits(&self.mag, self.k, self.n_slots, s)
    }

    /// Whether the slot planes have the lengths that `n_slots` and `k` name.
    fn check_planes(&self) -> (r: bool)
        ensures
            r == self.planes_agree(),
    {
        if self.sign.len() != self.n_slots || self.mult_id.len() != self.n_slots {
            return false;
        }
        let have: usize = self.mag.len();
        match self.k.checked_mul(self.n_slots) {
            Some(len) => have == len,
            None => false,
        }
    }

    /// Whether the sign of slot `s` agrees with its magnitude.
    fn check_slot(&self, s: usize) -> (r: bool)
        requires
            self.planes_agree(),
            s < self.n_slots,
        ensures
            r == self.slot_ok(s as int),
    {
        proof {
            planes::lemma_slot_inside(
                self.mag@.len() as int,
                self.k as int,
                self.n_slots as int,
                s as int,
            );
        }
        let zero: bool = self.slot_bits(s) == 0;
        sign_agrees(self.sign[s], zero)
    }

    /// Whether the sign of coefficient `l` agrees with its magnitude.
    fn check_lam(&self, l: usize) -> (r: bool)
        requires
            l < self.lams@.len(),
        ensures
            r == self.lam_ok(l as int),
    {
        let zero: bool = bits_of_limbs(self.lams[l].1.as_slice()) == 0;
        sign_agrees(self.lams[l].0, zero)
    }

    /// Whether multiplier `m` is positive.
    fn check_mult(&self, m: usize) -> (r: bool)
        requires
            m < self.mults@.len(),
        ensures
            r == self.mult_ok(m as int),
    {
        bits_of_limbs(self.mults[m].as_slice()) != 0
    }

    /// The first coefficient whose sign disagrees.
    fn bad_lam(&self) -> (r: Option<usize>)
        ensures
            r is None ==> self.lams_ok(),
            r matches Some(i) ==> i < self.lams@.len() && !self.lam_ok(i as int) && forall|j: int|
                0 <= j < i ==> self.lam_ok(j),
    {
        let mut i: usize = 0;
        while i < self.lams.len()
            invariant
                i <= self.lams@.len(),
                forall|j: int| 0 <= j < i ==> self.lam_ok(j),
            decreases self.lams@.len() - i,
        {
            if !self.check_lam(i) {
                return Some(i);
            }
            i = i + 1;
        }
        None
    }

    /// The first multiplier that is zero.
    fn bad_mult(&self) -> (r: Option<usize>)
        ensures
            r is None ==> self.mults_ok(),
            r matches Some(i) ==> i < self.mults@.len() && !self.mult_ok(i as int)
                && forall|j: int| 0 <= j < i ==> self.mult_ok(j),
    {
        let mut i: usize = 0;
        while i < self.mults.len()
            invariant
                i <= self.mults@.len(),
                forall|j: int| 0 <= j < i ==> self.mult_ok(j),
            decreases self.mults@.len() - i,
        {
            if !self.check_mult(i) {
                return Some(i);
            }
            i = i + 1;
        }
        None
    }

    /// The first slot whose sign disagrees.
    fn bad_slot(&self) -> (r: Option<usize>)
        requires
            self.planes_agree(),
        ensures
            r is None ==> self.slots_ok(),
            r matches Some(i) ==> i < self.n_slots && !self.slot_ok(i as int) && forall|j: int|
                0 <= j < i ==> self.slot_ok(j),
    {
        let mut i: usize = 0;
        while i < self.n_slots
            invariant
                self.planes_agree(),
                i <= self.n_slots,
                forall|j: int| 0 <= j < i ==> self.slot_ok(j),
            decreases self.n_slots - i,
        {
            if !self.check_slot(i) {
                return Some(i);
            }
            i = i + 1;
        }
        None
    }

    /// The structural part of the validation, in walking order.
    fn check_structure(&self) -> (r: Result<(), BatchError>)
        ensures
            r is Ok <==> self.structured(),
            r matches Err(e) ==> e is Structure && self.is_first_defect(e),
    {
        if !self.check_planes() {
            return Err(BatchError::Structure("slot planes disagree with n_slots/k"));
        }
        if !monotone_from_zero(&self.acol_ptr, self.concl_slot.len()) {
            return Err(BatchError::Structure("acol_ptr"));
        }
        if !monotone_from_zero(&self.csc_ptr, self.csc_lam.len()) {
            return Err(BatchError::Structure("csc_ptr"));
        }
        if self.csc_lam.len() != self.csc_slot.len() {
            return Err(BatchError::Structure("csc_lam/csc_slot lengths differ"));
        }
        if self.csc_ptr.len() - 1 != self.concl_slot.len() {
            return Err(BatchError::Structure("csc_ptr does not cover the acol space"));
        }
        Ok(())
    }

    /// Whether every entry of an index plane is below `limit`.
    fn ids_below(ids: &Vec<u32>, limit: usize) -> (r: bool)
        ensures
            r <==> (forall|i: int| 0 <= i < ids@.len() ==> ids@[i] < limit),
    {
        let mut i: usize = 0;
        while i < ids.len()
            invariant
                i <= ids@.len(),
                forall|j: int| 0 <= j < i ==> ids@[j] < limit,
            decreases ids@.len() - i,
        {
            if ids[i] as usize >= limit {
                return false;
            }
            i = i + 1;
        }
        true
    }

    /// Whether every conclusion names a slot or is absent.
    fn check_conclusions(&self) -> (r: bool)
        ensures
            r == self.concl_ids_ok(),
    {
        let mut i: usize = 0;
        while i < self.concl_slot.len()
            invariant
                i <= self.concl_slot@.len(),
                forall|j: int|
                    0 <= j < i ==> self.concl_slot@[j] == ABSENT || self.concl_slot@[j]
                        < self.n_slots,
            decreases self.concl_slot@.len() - i,
        {
            let c: u32 = self.concl_slot[i];
            if c != ABSENT && c as usize >= self.n_slots {
                return false;
            }
            i = i + 1;
        }
        true
    }

    /// The serial walk: the first defect in plane order.
    fn validate_serial(&self) -> (r: Result<(), BatchError>)
        ensures
            r is Ok <==> self.valid(),
            r matches Err(e) ==> self.is_first_defect(e),
    {
        match self.check_structure() {
            Err(e) => {
                return Err(e);
            },
            Ok(()) => {},
        }
        if let Some(i) = self.bad_lam() {
            return Err(BatchError::Sign(i));
        }
        if let Some(s) = self.bad_slot() {
            return Err(BatchError::Sign(s));
        }
        if let Some(i) = self.bad_mult() {
            return Err(BatchError::ZeroMult(i));
        }
        if !Self::ids_below(&self.csc_lam, self.lams.len()) {
            return Err(BatchError::Index("csc_lam"));
        }
        if !Self::ids_below(&self.csc_slot, self.n_slots) {
            return Err(BatchError::Index("csc_slot"));
        }
        if !self.check_conclusions() {
            return Err(BatchError::Index("concl_slot"));
        }
        if !Self::ids_below(&self.mult_id, self.mults.len()) {
            return Err(BatchError::Index("mult_id"));
        }
        Ok(())
    }

    /// Whether the descriptor has any defect: the same predicates in no order, the long
    /// planes scanned by the thread pool.
    fn any_defect_par(&self) -> (r: bool)
        ensures
            r == !self.valid(),
    {
        if self.check_structure().is_err() || self.bad_lam().is_some() || self.bad_mult().is_some() {
            return true;
        }
        let slots = |s: usize| -> (d: bool)
            requires
                self.planes_agree(),
                s < self.n_slots,
            ensures
                d == !self.slot_ok(s as int),
            { !self.check_slot(s) };
        if par_any(self.n_slots, slots) {
            return true;
        }
        assert(self.slots_ok()) by {
            assert forall|s: int| 0 <= s < self.n_slots implies self.slot_ok(s) by {
                assert(call_ensures(slots, (s as usize,), false));
            }
        }
        let lams = |i: usize| -> (d: bool)
            requires
                i < self.csc_lam@.len(),
            ensures
                d == (self.csc_lam@[i as int] >= self.lams@.len()),
            { self.csc_lam[i] as usize >= self.lams.len() };
        if par_any(self.csc_lam.len(), lams) {
            return true;
        }
        assert(self.lam_ids_ok()) by {
            assert forall|i: int| 0 <= i < self.csc_lam@.len() implies self.csc_lam@[i]
                < self.lams@.len() by {
                assert(call_ensures(lams, (i as usize,), false));
            }
        }
        let terms = |i: usize| -> (d: bool)
            requires
                i < self.csc_slot@.len(),
            ensures
                d == (self.csc_slot@[i as int] >= self.n_slots),
            { self.csc_slot[i] as usize >= self.n_slots };
        if par_any(self.csc_slot.len(), terms) {
            return true;
        }
        assert(self.slot_ids_ok()) by {
            assert forall|i: int| 0 <= i < self.csc_slot@.len() implies self.csc_slot@[i]
                < self.n_slots by {
                assert(call_ensures(terms, (i as usize,), false));
            }
        }
        let concls = |i: usize| -> (d: bool)
            requires
                i < self.concl_slot@.len(),
            ensures
                d == (self.concl_slot@[i as int] != ABSENT && self.concl_slot@[i as int]
                    >= self.n_slots),
            { self.concl_slot[i] != ABSENT && self.concl_slot[i] as usize >= self.n_slots };
        if par_any(self.concl_slot.len(), concls) {
            return true;
        }
        assert(self.concl_ids_ok()) by {
            assert forall|i: int| 0 <= i < self.concl_slot@.len() implies self.concl_slot@[i]
                == ABSENT || self.concl_slot@[i] < self.n_slots by {
                assert(call_ensures(concls, (i as usize,), false));
            }
        }
        let mults = |s: usize| -> (d: bool)
            requires
                s < self.mult_id@.len(),
            ensures
                d == (self.mult_id@[s as int] >= self.mults@.len()),
            { self.mult_id[s] as usize >= self.mults.len() };
        if par_any(self.mult_id.len(), mults) {
            return true;
        }
        assert(self.mult_ids_ok()) by {
            assert forall|s: int| 0 <= s < self.mult_id@.len() implies self.mult_id@[s]
                < self.mults@.len() by {
                assert(call_ensures(mults, (s as usize,), false));
            }
        }
        false
    }

    /// Full structural validation. On a defective descriptor the error names the first
    /// defect in plane order, whatever its size.
    pub fn validate(&self) -> (r: Result<(), BatchError>)
        ensures
            r is Ok <==> self.valid(),
            r matches Err(e) ==> self.is_first_defect(e),
    {
        let long: bool = self.n_slots >= Self::VALIDATE_PAR_MIN || self.csc_lam.len()
            >= Self::VALIDATE_PAR_MIN;
        if long && !self.any_defect_par() {
            return Ok(());
        }
        self.validate_serial()
    }
}

impl RnsFoldBatch {
    /// The columns of attempt `a` lie inside their plane.
    pub proof fn lemma_attempt(&self, a: int)
        requires
            self.structured(),
            0 <= a < self.attempts(),
        ensures
            0 <= self.acol_ptr@[a] <= self.acol_ptr@[a + 1] <= self.concl_slot@.len(),
    {
        assert(self.acol_ptr@[a + 1] <= self.acol_ptr@[self.acol_ptr@.len() - 1]);
    }

    /// The terms of column `c` lie inside their planes, behind those of the columns before.
    pub proof fn lemma_column(&self, c0: int, c: int)
        requires
            self.structured(),
            0 <= c0 <= c < self.concl_slot@.len(),
        ensures
            0 <= self.csc_ptr@[c0] <= self.csc_ptr@[c] <= self.csc_ptr@[c + 1]
                <= self.csc_lam@.len(),
    {
        assert(self.csc_ptr@[c + 1] <= self.csc_ptr@[self.csc_ptr@.len() - 1]);
    }

    /// The width of the operand at slot `s`. A width that a word cannot hold is reported
    /// as the largest word.
    fn operand_bits(&self, s: usize) -> (r: u64)
        requires
            self.planes_agree(),
            self.mult_ids_ok(),
            s < self.n_slots,
        ensures
            r == limbs::capped(self.slot_width(s as int)),
    {
        proof {
            planes::lemma_slot_inside(
                self.mag@.len() as int,
                self.k as int,
                self.n_slots as int,
                s as int,
            );
        }
        let raw: u64 = self.slot_bits(s);
        let mult: u64 = bits_of_limbs(self.mults[self.mult_id[s] as usize].as_slice());
        raw.saturating_add(mult)
    }

    /// The bound from the four maxima of an attempt.
    fn bound_of(
        b_lam: u64,
        b_v: u64,
        b_c: u64,
        t_max: u64,
        Ghost(lam): Ghost<nat>,
        Ghost(v): Ghost<nat>,
        Ghost(c): Ghost<nat>,
    ) -> (r: u64)
        requires
            b_lam == limbs::capped(lam),
            b_v == limbs::capped(v),
            b_c == limbs::capped(c),
        ensures
            r == limbs::capped(
                2 + if lam + v + limbs::bit_len(t_max as nat) > c {
                    lam + v + limbs::bit_len(t_max as nat)
                } else {
                    c
                },
            ),
    {
        proof {
            limbs::lemma_leading_zeros(t_max);
            limbs::lemma_word_bits(t_max);
        }
        let log_t: u64 = (64 - t_max.leading_zeros()) as u64;
        let fold: u64 = b_lam.saturating_add(b_v).saturating_add(log_t);
        let most: u64 = if fold > b_c {
            fold
        } else {
            b_c
        };
        most.saturating_add(2)
    }

    /// A bit count that bounds every column of an attempt: each difference is smaller in
    /// magnitude than two to that power. A count that a word cannot hold is reported as
    /// the largest word.
    pub fn required_bits(&self, attempt: usize) -> (r: u64)
        requires
            self.valid(),
            attempt < self.attempts(),
        ensures
            r == limbs::capped(self.bound_bits(attempt as int)),
    {
        proof {
            self.lemma_attempt(attempt as int);
        }
        assert(attempt < self.acol_ptr.len() - 1);
        let a0: usize = self.acol_ptr[attempt] as usize;
        let a1: usize = self.acol_ptr[attempt + 1] as usize;
        let ghost first: int = self.csc_ptr@[a0 as int] as int;
        let mut b_lam: u64 = 0;
        let mut b_v: u64 = 0;
        let mut b_c: u64 = 0;
        let mut t_max: u64 = 0;
        let mut acol: usize = a0;
        while acol < a1
            invariant
                self.valid(),
                a0 <= acol <= a1 <= self.concl_slot@.len(),
                first == self.csc_ptr@[a0 as int],
                b_lam == limbs::capped(
                    planes::largest(self.lam_widths(), first, self.csc_ptr@[acol as int] as int),
                ),
                b_v == limbs::capped(
                    planes::largest(self.slot_widths(), first, self.csc_ptr@[acol as int] as int),
                ),
                b_c == limbs::capped(planes::largest(self.concl_widths(), a0 as int, acol as int)),
                t_max == planes::largest(self.term_counts(), a0 as int, acol as int),
            decreases a1 - acol,
        {
            proof {
                self.lemma_column(a0 as int, acol as int);
            }
            let n0: usize = self.csc_ptr[acol] as usize;
            let n1: usize = self.csc_ptr[acol + 1] as usize;
            let t: u64 = (n1 - n0) as u64;
            if t > t_max {
                t_max = t;
            }
            let mut i: usize = n0;
            while i < n1
                invariant
                    self.valid(),
                    first <= n0 <= i <= n1 <= self.csc_lam@.len(),
                    b_lam == limbs::capped(
                        planes::largest(self.lam_widths(), first, i as int),
                    ),
                    b_v == limbs::capped(planes::largest(self.slot_widths(), first, i as int)),
                decreases n1 - i,
            {
                let w: u64 = bits_of_limbs(self.lams[self.csc_lam[i] as usize].1.as_slice());
                if w > b_lam {
                    b_lam = w;
                }
                let v: u64 = self.operand_bits(self.csc_slot[i] as usize);
                if v > b_v {
                    b_v = v;
                }
                i = i + 1;
            }
            let c: u32 = self.concl_slot[acol];
            if c != ABSENT {
                let w: u64 = self.operand_bits(c as usize);
                if w > b_c {
                    b_c = w;
                }
            }
            acol = acol + 1;
        }
        let ghost end: int = self.csc_ptr@[a1 as int] as int;
        Self::bound_of(
            b_lam,
            b_v,
            b_c,
            t_max,
            Ghost(planes::largest(self.lam_widths(), first, end)),
            Ghost(planes::largest(self.slot_widths(), first, end)),
            Ghost(planes::largest(self.concl_widths(), a0 as int, a1 as int)),
        )
    }

    /// The same count from tables of the operand and coefficient widths.
    fn required_bits_from(&self, attempt: usize, slot_eff: &Vec<u64>, lam_bits: &Vec<u64>) -> (r:
        u64)
        requires
            self.valid(),
            attempt < self.attempts(),
            slot_eff@.len() == self.n_slots,
            forall|s: int|
                0 <= s < self.n_slots ==> #[trigger] slot_eff@[s] == limbs::capped(
                    self.slot_width(s),
                ),
            lam_bits@.len() == self.lams@.len(),
            forall|l: int|
                0 <= l < self.lams@.len() ==> #[trigger] lam_bits@[l] == limbs::capped(
                    limbs::bit_len(self.lam_mag(l)),
                ),
        ensures
            r == limbs::capped(self.bound_bits(attempt as int)),
    {
        proof {
            self.lemma_attempt(attempt as int);
        }
        assert(attempt < self.acol_ptr.len() - 1);
        let a0: usize = self.acol_ptr[attempt] as usize;
        let a1: usize = self.acol_ptr[attempt + 1] as usize;
        let ghost first: int = self.csc_ptr@[a0 as int] as int;
        let mut b_lam: u64 = 0;
        let mut b_v: u64 = 0;
        let mut b_c: u64 = 0;
        let mut t_max: u64 = 0;
        let mut acol: usize = a0;
        while acol < a1
            invariant
                self.valid(),
                slot_eff@.len() == self.n_slots,
                forall|s: int|
                    0 <= s < self.n_slots ==> #[trigger] slot_eff@[s] == limbs::capped(
                        self.slot_width(s),
                    ),
                lam_bits@.len() == self.lams@.len(),
                forall|l: int|
                    0 <= l < self.lams@.len() ==> #[trigger] lam_bits@[l] == limbs::capped(
                        limbs::bit_len(self.lam_mag(l)),
                    ),
                a0 <= acol <= a1 <= self.concl_slot@.len(),
                first == self.csc_ptr@[a0 as int],
                b_lam == limbs::capped(
                    planes::largest(self.lam_widths(), first, self.csc_ptr@[acol as int] as int),
                ),
                b_v == limbs::capped(
                    planes::largest(self.slot_widths(), first, self.csc_ptr@[acol as int] as int),
                ),
                b_c == limbs::capped(planes::largest(self.concl_widths(), a0 as int, acol as int)),
                t_max == planes::largest(self.term_counts(), a0 as int, acol as int),
            decreases a1 - acol,
        {
            proof {
                self.lemma_column(a0 as int, acol as int);
            }
            let n0: usize = self.csc_ptr[acol] as usize;
            let n1: usize = self.csc_ptr[acol + 1] as usize;
            let t: u64 = (n1 - n0) as u64;
            if t > t_max {
                t_max = t;
            }
            let mut i: usize = n0;
            while i < n1
                invariant
                    self.valid(),
                    slot_eff@.len() == self.n_slots,
                    forall|s: int|
                        0 <= s < self.n_slots ==> #[trigger] slot_eff@[s] == limbs::capped(
                            self.slot_width(s),
                        ),
                    lam_bits@.len() == self.lams@.len(),
                    forall|l: int|
                        0 <= l < self.lams@.len() ==> #[trigger] lam_bits@[l] == limbs::capped(
                            limbs::bit_len(self.lam_mag(l)),
                        ),
                    first <= n0 <= i <= n1 <= self.csc_lam@.len(),
                    b_lam == limbs::capped(
                        planes::largest(self.lam_widths(), first, i as int),
                    ),
                    b_v == limbs::capped(planes::largest(self.slot_widths(), first, i as int)),
                decreases n1 - i,
            {
                let w: u64 = lam_bits[self.csc_lam[i] as usize];
                if w > b_lam {
                    b_lam = w;
                }
                let v: u64 = slot_eff[self.csc_slot[i] as usize];
                if v > b_v {
                    b_v = v;
                }
                i = i + 1;
            }
            let c: u32 = self.concl_slot[acol];
            if c != ABSENT {
                let w: u64 = slot_eff[c as usize];
                if w > b_c {
                    b_c = w;
                }
            }
            acol = acol + 1;
        }
        let ghost end: int = self.csc_ptr@[a1 as int] as int;
        Self::bound_of(
            b_lam,
            b_v,
            b_c,
            t_max,
            Ghost(planes::largest(self.lam_widths(), first, end)),
            Ghost(planes::largest(self.slot_widths(), first, end)),
            Ghost(planes::largest(self.concl_widths(), a0 as int, a1 as int)),
        )
    }

    /// The channels that cover every admitted attempt, and the attempts that are refused
    /// because the channel table does not cover their bound.
    pub fn plan_channels(&self) -> (r: (usize, Vec<bool>))
        requires
            self.valid(),
        ensures
            r.0 == self.channels(),
            1 <= r.0 <= 64,
            r.1@.len() == self.attempts(),
            forall|a: int|
                0 <= a < self.attempts() ==> #[trigger] r.1@[a] == self.beyond_table(a),
    {
        let widths = |s: usize| -> (w: u64)
            requires
                self.valid(),
                s < self.n_slots,
            ensures
                w == limbs::capped(self.slot_width(s as int)),
            { self.operand_bits(s) };
        let slot_eff: Vec<u64> = par_map(self.n_slots, widths);
        assert forall|s: int| 0 <= s < self.n_slots implies #[trigger] slot_eff@[s]
            == limbs::capped(self.slot_width(s)) by {
            assert(call_ensures(widths, (s as usize,), slot_eff@[s as usize as int]));
        }
        let lams = |l: usize| -> (w: u64)
            requires
                l < self.lams@.len(),
            ensures
                w == limbs::capped(limbs::bit_len(self.lam_mag(l as int))),
            { bits_of_limbs(self.lams[l].1.as_slice()) };
        let lam_bits: Vec<u64> = par_map(self.lams.len(), lams);
        assert forall|l: int| 0 <= l < self.lams@.len() implies #[trigger] lam_bits@[l]
            == limbs::capped(limbs::bit_len(self.lam_mag(l))) by {
            assert(call_ensures(lams, (l as usize,), lam_bits@[l as usize as int]));
        }
        let n: usize = self.n_attempts();
        let bounds = |a: usize| -> (w: u64)
            requires
                self.valid(),
                a < self.attempts(),
                slot_eff@.len() == self.n_slots,
                forall|s: int|
                    0 <= s < self.n_slots ==> #[trigger] slot_eff@[s] == limbs::capped(
                        self.slot_width(s),
                    ),
                lam_bits@.len() == self.lams@.len(),
                forall|l: int|
                    0 <= l < self.lams@.len() ==> #[trigger] lam_bits@[l] == limbs::capped(
                        limbs::bit_len(self.lam_mag(l)),
                    ),
            ensures
                w == limbs::capped(self.bound_bits(a as int)),
            { self.required_bits_from(a, &slot_eff, &lam_bits) };
        let req: Vec<u64> = par_map(n, bounds);
        assert forall|a: int| 0 <= a < n implies #[trigger] req@[a] == limbs::capped(
            self.bound_bits(a),
        ) by {
            assert(call_ensures(bounds, (a as usize,), req@[a as usize as int]));
        }
        let mut refused: Vec<bool> = Vec::new();
        let mut channels: usize = 1;
        let mut a: usize = 0;
        while a < n
            invariant
                a <= n,
                n == self.attempts(),
                req@.len() == n,
                forall|b: int|
                    0 <= b < n ==> #[trigger] req@[b] == limbs::capped(self.bound_bits(b)),
                refused@.len() == a,
                forall|b: int|
                    0 <= b < a ==> #[trigger] refused@[b] == self.beyond_table(b),
                1 <= channels <= 64,
                channels == {
                    let most = planes::largest(self.channel_counts(), 0, a as int);
                    if most > 1 {
                        most
                    } else {
                        1
                    }
                },
            decreases n - a,
        {
            match channels_for_bits(req[a]) {
                Some(c) => {
                    refused.push(false);
                    if c > channels {
                        channels = c;
                    }
                },
                None => {
                    refused.push(true);
                },
            }
            a = a + 1;
        }
        (channels, refused)
    }
}

/// A product of bounded factors is bounded by the product of the bounds.
proof fn lemma_bounded_product(x: int, y: int, a: int, b: int)
    requires
        nt::abs(x) <= a,
        nt::abs(y) <= b,
    ensures
        nt::abs(x * y) <= a * b,
{
    assert(-(a * b) <= x * y <= a * b) by (nonlinear_arith)
        requires
            -a <= x <= a,
            -b <= y <= b,
    ;
}

/// Powers of two grow with the exponent.
proof fn lemma_pow2_grows(a: nat, b: nat)
    requires
        a <= b,
    ensures
        pow2(a) <= pow2(b),
{
    if a < b {
        lemma_pow2_strictly_increases(a, b);
    }
}

impl RnsFoldBatch {
    /// An operand is bounded by its width.
    proof fn lemma_operand_bound(&self, s: int, w: nat)
        requires
            self.slot_width(s) <= w,
        ensures
            nt::abs(self.operand(s)) <= pow2(w),
    {
        let raw: nat = self.slot_mag(s);
        let mult: nat = self.mult_mag(self.mult_id@[s] as int);
        limbs::lemma_bit_len_bounds(raw);
        limbs::lemma_bit_len_bounds(mult);
        lemma_bounded_product(
            limbs::signed(self.sign@[s], raw),
            mult as int,
            pow2(limbs::bit_len(raw)) as int,
            pow2(limbs::bit_len(mult)) as int,
        );
        lemma_pow2_adds(limbs::bit_len(raw), limbs::bit_len(mult));
        lemma_pow2_grows(self.slot_width(s), w);
    }

    /// A sum of terms is bounded by their number and their widths.
    proof fn lemma_fold_bound(&self, acol: int, i: int, lam: nat, v: nat)
        requires
            self.csc_ptr@[acol] <= i,
            forall|j: int|
                self.csc_ptr@[acol] <= j < i ==> #[trigger] self.lam_width(j) <= lam
                    && self.slot_width(self.csc_slot@[j] as int) <= v,
        ensures
            nt::abs(self.fold_upto(acol, i)) <= (i - self.csc_ptr@[acol]) * pow2(lam + v),
        decreases i - self.csc_ptr@[acol],
    {
        let p: int = pow2(lam + v) as int;
        if i == self.csc_ptr@[acol] {
            assert(0 * p == 0) by (nonlinear_arith);
        } else {
            self.lemma_fold_bound(acol, i - 1, lam, v);
            assert(self.lam_width(i - 1) <= lam);
            let mag: nat = self.lam_mag(self.csc_lam@[i - 1] as int);
            limbs::lemma_bit_len_bounds(mag);
            lemma_pow2_grows(limbs::bit_len(mag), lam);
            self.lemma_operand_bound(self.csc_slot@[i - 1] as int, v);
            lemma_bounded_product(
                self.lam(self.csc_lam@[i - 1] as int),
                self.operand(self.csc_slot@[i - 1] as int),
                pow2(lam) as int,
                pow2(v) as int,
            );
            lemma_pow2_adds(lam, v);
            let n: int = i - self.csc_ptr@[acol];
            assert((n - 1) * p + p == n * p) by (nonlinear_arith);
        }
    }

    /// The bound from which channels are counted is sound: every column of an attempt
    /// differs from its conclusion by less than two to the attempt's bound.
    pub proof fn law_difference_below_bound(&self, a: int, acol: int)
        requires
            self.valid(),
            0 <= a < self.attempts(),
            self.acol_ptr@[a] <= acol < self.acol_ptr@[a + 1],
        ensures
            nt::abs(self.delta(acol)) < pow2(self.bound_bits(a)),
    {
        let lo: int = self.acol_ptr@[a] as int;
        let hi: int = self.acol_ptr@[a + 1] as int;
        let first: int = self.csc_ptr@[lo] as int;
        let end: int = self.csc_ptr@[hi] as int;
        self.lemma_attempt(a);
        self.lemma_column(lo, acol);
        assert(self.csc_ptr@[acol + 1] <= end);
        let lam: nat = planes::largest(self.lam_widths(), first, end);
        let v: nat = planes::largest(self.slot_widths(), first, end);
        let t: nat = planes::largest(self.term_counts(), lo, hi);
        let c: nat = planes::largest(self.concl_widths(), lo, hi);
        assert forall|j: int|
            self.csc_ptr@[acol] <= j < self.csc_ptr@[acol + 1] implies #[trigger] self.lam_width(j)
            <= lam && self.slot_width(self.csc_slot@[j] as int) <= v by {
            planes::lemma_largest(self.lam_widths(), first, end, j);
            planes::lemma_largest(self.slot_widths(), first, end, j);
            assert((self.lam_widths())(j) == self.lam_width(j));
        }
        self.lemma_fold_bound(acol, self.csc_ptr@[acol + 1] as int, lam, v);
        planes::lemma_largest(self.term_counts(), lo, hi, acol);
        planes::lemma_largest(self.concl_widths(), lo, hi, acol);
        assert((self.term_counts())(acol) == self.terms(acol));
        assert((self.concl_widths())(acol) == self.concl_width(acol));
        let log_t: nat = limbs::bit_len(t);
        let fold: nat = lam + v + log_t;
        let most: nat = if fold > c {
            fold
        } else {
            c
        };
        // the fold
        limbs::lemma_bit_len_bounds(t);
        lemma_pow2_adds(lam + v, log_t);
        lemma_pow2_pos(lam + v);
        let n: int = self.csc_ptr@[acol + 1] - self.csc_ptr@[acol];
        let p: int = pow2(lam + v) as int;
        let q: int = pow2(log_t) as int;
        assert(n * p <= p * q) by (nonlinear_arith)
            requires
                0 <= n <= q,
                0 < p,
        ;
        lemma_pow2_grows(fold, most);
        // the conclusion
        if self.concl_slot@[acol] != ABSENT {
            self.lemma_operand_bound(self.concl_slot@[acol] as int, c);
        }
        lemma_pow2_grows(c, most);
        lemma_pow2_pos(most);
        lemma_pow2_pos(c);
        // two of them stay below four
        lemma_pow2_unfold(most + 1);
        lemma_pow2_unfold(most + 2);
    }
}

} // verus!
