//! The batch descriptor: the one shape that every lane of the family consumes.

use crate::limbs;
use crate::nt;
use crate::nullspace::fraction;
use crate::planes;
use crate::planes::{monotone_from_zero, sign_agrees, slot_bits};
use crate::text;
use crate::text::{push_decimal, push_text};
use vstd::prelude::*;

verus! {

/// One batched row-membership problem.
///
/// An attempt is a range of rows (`arow_ptr`), query rows first and pool rows from
/// `split` on; a row is a range of entries (`row_ptr`); an entry is a column and a value
/// slot. A slot carries a signed numerator as zero-padded limb planes and a denominator
/// id.
#[derive(Debug, Clone, Default, PartialEq, Eq)]
pub struct RowEqBatch {
    /// Limb count of the magnitude planes.
    pub k: usize,
    /// Number of value slots.
    pub n_slots: usize,
    /// Per slot: -1, 0 or 1, zero exactly for a zero magnitude.
    pub sign: Vec<i8>,
    /// Magnitude planes: limb `l` of slot `s` at `l * n_slots + s`.
    pub mag: Vec<u64>,
    /// Per slot: the denominator id.
    pub den_id: Vec<u32>,
    /// Attempt to row range.
    pub arow_ptr: Vec<u32>,
    /// Per attempt: where its pool rows begin.
    pub split: Vec<u32>,
    /// Row to entry range.
    pub row_ptr: Vec<u32>,
    /// Per entry: the column.
    pub nnz_col: Vec<u32>,
    /// Per entry: the value slot.
    pub nnz_slot: Vec<u32>,
}

/// What a lane reports.
#[derive(Debug, Clone, PartialEq, Eq)]
pub struct RowEqOutcome {
    /// Per attempt: every query row equals some pool row.
    pub member_ok: Vec<bool>,
}

/// A structural defect in a descriptor.
#[derive(Debug, Clone, PartialEq, Eq)]
pub enum RowEqError {
    /// A plane's length or a pointer plane is malformed.
    Structure(&'static str),
    /// An index plane refers past its target's length.
    Index(&'static str),
    /// An attempt's split falls outside its row range.
    Split(usize),
    /// A sign is none of -1, 0, 1, or disagrees with its magnitude.
    Sign(usize),
}

impl RowEqError {
    /// What the refusal says.
    pub open spec fn rendered(self) -> Seq<char> {
        match self {
            RowEqError::Structure(what) => "malformed pointer plane: "@ + what@,
            RowEqError::Index(what) => "index out of range: "@ + what@,
            RowEqError::Split(a) => "attempt "@ + text::decimal(a as int) + ": split outside its row range"@,
            RowEqError::Sign(i) => "slot "@ + text::decimal(i as int) + ": sign not in -1/0/+1 or zero-inconsistent"@,
        }
    }

    /// The text of the refusal.
    pub fn text(&self) -> (r: String)
        ensures
            r@ == self.rendered(),
    {
        let mut s: String = String::new();
        match self {
            RowEqError::Structure(what) => {
                push_text(&mut s, "malformed pointer plane: ");
                push_text(&mut s, *what);
            },
            RowEqError::Index(what) => {
                push_text(&mut s, "index out of range: ");
                push_text(&mut s, *what);
            },
            RowEqError::Split(a) => {
                push_text(&mut s, "attempt ");
                push_decimal(&mut s, *a as u64);
                push_text(&mut s, ": split outside its row range");
            },
            RowEqError::Sign(i) => {
                push_text(&mut s, "slot ");
                push_decimal(&mut s, *i as u64);
                push_text(&mut s, ": sign not in -1/0/+1 or zero-inconsistent");
            },
        }
        assert(s@ =~= self.rendered());
        s
    }
}

impl RowEqBatch {
    /// The number of attempts.
    pub open spec fn attempts(&self) -> int {
        if self.arow_ptr@.len() == 0 {
            0
        } else {
            self.arow_ptr@.len() - 1
        }
    }

    /// The number of rows.
    pub open spec fn rows(&self) -> int {
        if self.row_ptr@.len() == 0 {
            0
        } else {
            self.row_ptr@.len() - 1
        }
    }

    /// The magnitude of slot `s`.
    pub open spec fn slot_mag(&self, s: int) -> nat {
        planes::slot_value(self.mag@, self.k as int, self.n_slots as int, s)
    }

    /// The slot planes have the lengths that `n_slots` and `k` name.
    pub open spec fn planes_agree(&self) -> bool {
        &&& self.sign@.len() == self.n_slots
        &&& self.mag@.len() == self.k * self.n_slots
        &&& self.den_id@.len() == self.n_slots
    }

    /// The attempts cover the rows.
    pub open spec fn attempts_rise(&self) -> bool {
        planes::rises(self.arow_ptr@, self.rows())
    }

    /// The rows cover the entries.
    pub open spec fn rows_rise(&self) -> bool {
        planes::rises(self.row_ptr@, self.nnz_col@.len() as int)
    }

    /// The pointer planes and the lengths of all planes agree.
    pub open spec fn structured(&self) -> bool {
        &&& self.planes_agree()
        &&& self.attempts_rise()
        &&& self.rows_rise()
        &&& self.nnz_col@.len() == self.nnz_slot@.len()
        &&& self.split@.len() == self.attempts()
    }

    /// The split of attempt `a` lies in its row range.
    pub open spec fn split_ok(&self, a: int) -> bool {
        self.arow_ptr@[a] <= self.split@[a] <= self.arow_ptr@[a + 1]
    }

    /// Every split lies in its attempt's row range.
    pub open spec fn splits_ok(&self) -> bool {
        forall|a: int| 0 <= a < self.attempts() ==> self.split_ok(a)
    }

    /// Every entry names a slot.
    pub open spec fn slot_ids_ok(&self) -> bool {
        forall|i: int| 0 <= i < self.nnz_slot@.len() ==> self.nnz_slot@[i] < self.n_slots
    }

    /// The sign of slot `s` agrees with its magnitude.
    pub open spec fn slot_ok(&self, s: int) -> bool {
        planes::sign_fits(self.sign@[s], self.slot_mag(s))
    }

    /// Every slot's sign agrees.
    pub open spec fn slots_ok(&self) -> bool {
        forall|s: int| 0 <= s < self.n_slots ==> self.slot_ok(s)
    }

    /// A descriptor that the lanes accept.
    pub open spec fn valid(&self) -> bool {
        &&& self.structured()
        &&& self.splits_ok()
        &&& self.slot_ids_ok()
        &&& self.slots_ok()
    }

    /// `e` names the first defect, in the order in which the planes are walked.
    pub open spec fn is_first_defect(&self, e: RowEqError) -> bool {
        match e {
            RowEqError::Structure(what) => if !self.planes_agree() {
                what == "slot planes disagree with n_slots/k"
            } else if !self.attempts_rise() {
                what == "arow_ptr"
            } else if !self.rows_rise() {
                what == "row_ptr"
            } else if self.nnz_col@.len() != self.nnz_slot@.len() {
                what == "nnz_col/nnz_slot lengths differ"
            } else {
                !self.structured() && what == "split does not cover the attempts"
            },
            RowEqError::Split(a) => {
                &&& self.structured()
                &&& a < self.attempts() && !self.split_ok(a as int)
                &&& forall|j: int| 0 <= j < a ==> self.split_ok(j)
            },
            RowEqError::Index(what) => {
                &&& self.structured() && self.splits_ok()
                &&& !self.slot_ids_ok() && what == "nnz_slot"
            },
            RowEqError::Sign(s) => {
                &&& self.structured() && self.splits_ok() && self.slot_ids_ok()
                &&& s < self.n_slots && !self.slot_ok(s as int)
                &&& forall|j: int| 0 <= j < s ==> self.slot_ok(j)
            },
        }
    }

    /// A descriptor has one first defect.
    pub proof fn lemma_first_defect_unique(&self, d: RowEqError, e: RowEqError)
        requires
            self.is_first_defect(d),
            self.is_first_defect(e),
        ensures
            d == e,
    {
        match (d, e) {
            (RowEqError::Split(i), RowEqError::Split(j)) => {
                if i < j {
                    assert(self.split_ok(i as int));
                } else if j < i {
                    assert(self.split_ok(j as int));
                }
            },
            (RowEqError::Sign(i), RowEqError::Sign(j)) => {
                if i < j {
                    assert(self.slot_ok(i as int));
                } else if j < i {
                    assert(self.slot_ok(j as int));
                }
            },
            _ => {},
        }
    }

    /// The same value: the same sign, the same magnitude and the same denominator id.
    pub open spec fn same_value(&self, s: int, t: int) -> bool {
        &&& self.sign@[s] == self.sign@[t]
        &&& self.slot_mag(s) == self.slot_mag(t)
        &&& self.den_id@[s] == self.den_id@[t]
    }

    /// The number of entries of row `r`.
    pub open spec fn row_len(&self, r: int) -> int {
        self.row_ptr@[r + 1] - self.row_ptr@[r]
    }

    /// Place `i` of rows `q` and `r` holds the same column and value.
    pub open spec fn same_entry(&self, q: int, r: int, i: int) -> bool {
        let x = self.row_ptr@[q] + i;
        let y = self.row_ptr@[r] + i;
        &&& self.nnz_col@[x] == self.nnz_col@[y]
        &&& self.same_value(self.nnz_slot@[x] as int, self.nnz_slot@[y] as int)
    }

    /// Rows `q` and `r` are equal.
    pub open spec fn same_row(&self, q: int, r: int) -> bool {
        &&& self.row_len(q) == self.row_len(r)
        &&& forall|i: int| 0 <= i < self.row_len(q) ==> #[trigger] self.same_entry(q, r, i)
    }

    /// Query row `q` of attempt `a` equals some pool row.
    pub open spec fn found(&self, a: int, q: int) -> bool {
        exists|r: int|
            self.split@[a] <= r < self.arow_ptr@[a + 1] && #[trigger] self.same_row(q, r)
    }

    /// Every query row of attempt `a` equals some pool row.
    pub open spec fn members(&self, a: int) -> bool {
        forall|q: int| self.arow_ptr@[a] <= q < self.split@[a] ==> #[trigger] self.found(a, q)
    }

    /// The number of attempts.
    pub fn n_attempts(&self) -> (n: usize)
        ensures
            n == self.attempts(),
    {
        if self.arow_ptr.len() == 0 {
            0
        } else {
            self.arow_ptr.len() - 1
        }
    }

    /// The number of rows, queries and pools of all attempts together.
    pub fn n_rows(&self) -> (n: usize)
        ensures
            n == self.rows(),
    {
        if self.row_ptr.len() == 0 {
            0
        } else {
            self.row_ptr.len() - 1
        }
    }

    /// The bit length of the magnitude of slot `s`. A length that a word cannot hold is
    /// reported as the largest word.
    pub fn slot_bits(&self, s: usize) -> (r: u64)
        requires
            planes::slot_inside(
                self.mag@.len() as int,
                self.k as int,
                self.n_slots as int,
                s as int,
            ),
        ensures
            r == limbs::capped(limbs::bit_len(self.slot_mag(s as int))),
    {
        slot_bits(&self.mag, self.k, self.n_slots, s)
    }

    /// Whether the slot planes have the lengths that `n_slots` and `k` name.
    fn check_planes(&self) -> (r: bool)
        ensures
            r == self.planes_agree(),
    {
        if self.sign.len() != self.n_slots || self.den_id.len() != self.n_slots {
            return false;
        }
        let have: usize = self.mag.len();
        match self.k.checked_mul(self.n_slots) {
            Some(len) => have == len,
            None => false,
        }
    }

    /// Full structural validation. On a defective descriptor the error names the first
    /// defect in plane order.
    pub fn validate(&self) -> (r: Result<(), RowEqError>)
        ensures
            r is Ok <==> self.valid(),
            r matches Err(e) ==> self.is_first_defect(e),
    {
        if !self.check_planes() {
            return Err(RowEqError::Structure("slot planes disagree with n_slots/k"));
        }
        if !monotone_from_zero(&self.arow_ptr, self.n_rows()) {
            return Err(RowEqError::Structure("arow_ptr"));
        }
        if !monotone_from_zero(&self.row_ptr, self.nnz_col.len()) {
            return Err(RowEqError::Structure("row_ptr"));
        }
        if self.nnz_col.len() != self.nnz_slot.len() {
            return Err(RowEqError::Structure("nnz_col/nnz_slot lengths differ"));
        }
        if self.split.len() != self.n_attempts() {
            return Err(RowEqError::Structure("split does not cover the attempts"));
        }
        let n: usize = self.n_attempts();
        let mut a: usize = 0;
        while a < n
            invariant
                self.structured(),
                n == self.attempts(),
                n == self.arow_ptr.len() - 1,
                a <= n,
                forall|j: int| 0 <= j < a ==> self.split_ok(j),
            decreases n - a,
        {
            if self.split[a] < self.arow_ptr[a] || self.split[a] > self.arow_ptr[a + 1] {
                assert(!self.split_ok(a as int));
                return Err(RowEqError::Split(a));
            }
            a = a + 1;
        }
        let mut i: usize = 0;
        while i < self.nnz_slot.len()
            invariant
                self.structured(),
                self.splits_ok(),
                i <= self.nnz_slot@.len(),
                forall|j: int| 0 <= j < i ==> self.nnz_slot@[j] < self.n_slots,
            decreases self.nnz_slot@.len() - i,
        {
            if self.nnz_slot[i] as usize >= self.n_slots {
                return Err(RowEqError::Index("nnz_slot"));
            }
            i = i + 1;
        }
        let mut s: usize = 0;
        while s < self.n_slots
            invariant
                self.structured(),
                self.splits_ok(),
                self.slot_ids_ok(),
                s <= self.n_slots,
                forall|j: int| 0 <= j < s ==> self.slot_ok(j),
            decreases self.n_slots - s,
        {
            proof {
                planes::lemma_slot_inside(
                    self.mag@.len() as int,
                    self.k as int,
                    self.n_slots as int,
                    s as int,
                );
            }
            let zero: bool = self.slot_bits(s) == 0;
            if !sign_agrees(self.sign[s], zero) {
                assert(!self.slot_ok(s as int));
                return Err(RowEqError::Sign(s));
            }
            s = s + 1;
        }
        Ok(())
    }
}

/// Comparing representations compares values: where the denominator ids of an attempt are
/// an injective code `den` of its denominators, and the fractions are reduced, two slots
/// hold the same value exactly where the fractions are equal.
pub proof fn law_same_value_is_equality(b: &RowEqBatch, den: spec_fn(u32) -> int, s: int, t: int)
    requires
        b.valid(),
        0 <= s < b.n_slots,
        0 <= t < b.n_slots,
        den(b.den_id@[s]) > 0,
        den(b.den_id@[t]) > 0,
        den(b.den_id@[s]) == den(b.den_id@[t]) ==> b.den_id@[s] == b.den_id@[t],
        nt::gcd(b.slot_mag(s), den(b.den_id@[s]) as nat) == 1,
        nt::gcd(b.slot_mag(t), den(b.den_id@[t]) as nat) == 1,
    ensures
        b.same_value(s, t) <==> limbs::signed(b.sign@[s], b.slot_mag(s)) * den(b.den_id@[t])
            == limbs::signed(b.sign@[t], b.slot_mag(t)) * den(b.den_id@[s]),
{
    let n1: int = limbs::signed(b.sign@[s], b.slot_mag(s));
    let n2: int = limbs::signed(b.sign@[t], b.slot_mag(t));
    let d1: int = den(b.den_id@[s]);
    let d2: int = den(b.den_id@[t]);
    assert(b.slot_ok(s));
    assert(b.slot_ok(t));
    if n1 * d2 == n2 * d1 {
        fraction::lemma_reduced_equal(n1, d1, n2, d2);
    }
}

impl RowEqBatch {
    /// `self` is `b` with `j` more limb planes, all zero.
    pub open spec fn pads(&self, b: &RowEqBatch, j: nat) -> bool {
        &&& self.k == b.k + j
        &&& self.n_slots == b.n_slots
        &&& self.sign@ == b.sign@
        &&& self.mag@ == b.mag@ + Seq::new((j * b.n_slots) as nat, |i: int| 0u64)
        &&& self.den_id@ == b.den_id@
        &&& self.arow_ptr@ == b.arow_ptr@
        &&& self.split@ == b.split@
        &&& self.row_ptr@ == b.row_ptr@
        &&& self.nnz_col@ == b.nnz_col@
        &&& self.nnz_slot@ == b.nnz_slot@
    }
}

/// Zero planes change no magnitude.
proof fn lemma_padded_slot(b: &RowEqBatch, c: &RowEqBatch, j: nat, s: int)
    requires
        b.planes_agree(),
        c.pads(b, j),
        0 <= s < b.n_slots,
    ensures
        c.slot_mag(s) == b.slot_mag(s),
{
    let n: int = b.n_slots as int;
    let k: int = b.k as int;
    let short: Seq<u64> = planes::slot_limbs(b.mag@, k, n, s);
    let long: Seq<u64> = planes::slot_limbs(c.mag@, k + j, n, s);
    assert forall|l: int| 0 <= l < short.len() implies #[trigger] long[l] == short[l] by {
        planes::lemma_slot_inside(b.mag@.len() as int, k, n, s);
        planes::lemma_word_inside(b.mag@.len() as int, k, n, s, l);
    }
    assert forall|l: int| short.len() <= l < long.len() implies #[trigger] long[l] == 0 by {
        assert(k * n + j * n == (k + j) * n) by (nonlinear_arith);
        assert(k * n <= l * n && l * n + n <= (k + j) * n) by (nonlinear_arith)
            requires
                k <= l < k + j,
                n >= 0,
        ;
    }
    limbs::lemma_padded(short, long, 0);
}

/// Zero padding of the limb planes keeps a descriptor valid and changes no verdict.
pub proof fn law_padding_keeps_verdicts(b: &RowEqBatch, c: &RowEqBatch, j: nat)
    requires
        b.valid(),
        c.pads(b, j),
    ensures
        c.valid(),
        c.attempts() == b.attempts(),
        forall|a: int| 0 <= a < b.attempts() ==> #[trigger] c.members(a) == b.members(a),
{
    assert(c.planes_agree()) by {
        assert(b.k * b.n_slots + j * b.n_slots == (b.k + j) * b.n_slots) by (nonlinear_arith);
        assert(j * b.n_slots >= 0) by (nonlinear_arith);
    }
    assert forall|s: int| 0 <= s < b.n_slots implies #[trigger] c.slot_mag(s) == b.slot_mag(s) by {
        lemma_padded_slot(b, c, j, s);
    }
    assert forall|s: int| 0 <= s < c.n_slots implies c.slot_ok(s) by {
        assert(b.slot_ok(s));
        assert(c.slot_mag(s) == b.slot_mag(s));
    }
    assert forall|a: int| 0 <= a < c.attempts() implies c.split_ok(a) by {
        assert(b.split_ok(a));
    }
    assert forall|q: int, r: int| 0 <= q < b.rows() && 0 <= r < b.rows() implies #[trigger] c.same_row(
        q,
        r,
    ) == b.same_row(q, r) by {
        lemma_same_row(b, c, q, r);
        lemma_same_row(c, b, q, r);
    }
    assert forall|a: int| 0 <= a < b.attempts() implies #[trigger] c.members(a) == b.members(a) by {
        let lo: int = b.arow_ptr@[a] as int;
        let hi: int = b.arow_ptr@[a + 1] as int;
        assert(b.split_ok(a));
        assert(hi <= b.arow_ptr@[b.arow_ptr@.len() - 1]);
        assert forall|q: int| lo <= q < hi implies #[trigger] c.found(a, q) == b.found(a, q) by {
            if b.found(a, q) {
                let r: int = choose|r: int|
                    b.split@[a] <= r < b.arow_ptr@[a + 1] && #[trigger] b.same_row(q, r);
                assert(c.same_row(q, r));
            }
            if c.found(a, q) {
                let r: int = choose|r: int|
                    c.split@[a] <= r < c.arow_ptr@[a + 1] && #[trigger] c.same_row(q, r);
                assert(b.same_row(q, r));
            }
        }
        if b.members(a) {
            assert forall|q: int| c.arow_ptr@[a] <= q < c.split@[a] implies #[trigger] c.found(
                a,
                q,
            ) by {
                assert(b.found(a, q));
            }
        }
        if c.members(a) {
            assert forall|q: int| b.arow_ptr@[a] <= q < b.split@[a] implies #[trigger] b.found(
                a,
                q,
            ) by {
                assert(c.found(a, q));
            }
        }
    }
}

/// Rows that are equal in one descriptor are equal in another that holds the same entries
/// and the same magnitudes.
proof fn lemma_same_row(b: &RowEqBatch, c: &RowEqBatch, q: int, r: int)
    requires
        b.structured(),
        b.slot_ids_ok(),
        c.sign@ == b.sign@,
        c.den_id@ == b.den_id@,
        c.row_ptr@ == b.row_ptr@,
        c.nnz_col@ == b.nnz_col@,
        c.nnz_slot@ == b.nnz_slot@,
        forall|s: int| 0 <= s < b.n_slots ==> #[trigger] c.slot_mag(s) == b.slot_mag(s),
        0 <= q < b.rows(),
        0 <= r < b.rows(),
    ensures
        b.same_row(q, r) ==> c.same_row(q, r),
{
    assert(b.row_ptr@[q + 1] <= b.row_ptr@[b.row_ptr@.len() - 1]);
    assert(b.row_ptr@[r + 1] <= b.row_ptr@[b.row_ptr@.len() - 1]);
    assert forall|i: int| b.same_row(q, r) && 0 <= i < c.row_len(q) implies #[trigger] c.same_entry(
        q,
        r,
        i,
    ) by {
        assert(b.same_entry(q, r, i));
        let x: int = b.row_ptr@[q] + i;
        let y: int = b.row_ptr@[r] + i;
        let s: int = b.nnz_slot@[x] as int;
        let t: int = b.nnz_slot@[y] as int;
        assert(b.nnz_slot@[x] < b.n_slots && b.nnz_slot@[y] < b.n_slots);
        assert(c.slot_mag(s) == b.slot_mag(s));
        assert(c.slot_mag(t) == b.slot_mag(t));
    }
}

} // verus!
