//! The device lane of `rnsfold`: what is uploaded, how it is launched, and what the flags
//! that come back mean. Everything but the upload, the launch and the download stands here.

use super::error::GpuError;
use super::host::LaunchConfig;
use crate::mont;
use crate::mont::{neg_inv_u64, to_mont};
use crate::nt;
use crate::par::par_map;
use crate::planes;
use crate::rnsfold::batch::{BatchError, RnsFoldBatch, RnsFoldOutcome};
use crate::rnsfold::primes;
use crate::rnsfold::primes::{residue_of_limbs, residue_signed, PRIMES};
use crate::rnsfold::reference;
use vstd::arithmetic::power::{lemma_pow1, pow};
use vstd::prelude::*;

verus! {

/// What a kernel launch takes besides the planes of the descriptor.
#[derive(Debug, Clone, PartialEq, Eq)]
pub struct RnsFoldLaunch {
    /// The number of columns.
    pub n_acols: u32,
    /// The number of value slots.
    pub n_slots: u32,
    /// The number of limbs of a slot.
    pub k: u32,
    /// The width of a row of `lamres`.
    pub n_lams: u32,
    /// The width of a row of `multres`.
    pub n_mults: u32,
    /// Per channel: the modulus.
    pub primes: Vec<u64>,
    /// Per channel: the negated inverse of the modulus, modulo the radix.
    pub pinvs: Vec<u64>,
    /// Per channel and limb: the radix to the power of the limb and two.
    pub powr2: Vec<u64>,
    /// Per channel and coefficient: its residue, in Montgomery form.
    pub lamres: Vec<u64>,
    /// Per channel and multiplier: its residue, in Montgomery form.
    pub multres: Vec<u64>,
    /// Per slot: the sign.
    pub sign: Vec<i32>,
    /// Per column: its attempt.
    pub acol_attempt: Vec<u32>,
    /// The grid: columns by channels.
    pub config: LaunchConfig,
    /// Per attempt: the channel table does not cover its bound.
    pub refused: Vec<bool>,
}

/// How a batch goes on.
#[derive(Debug, Clone, PartialEq, Eq)]
pub enum RnsFoldStep {
    /// There is nothing to launch.
    Done(RnsFoldOutcome),
    /// The kernel is to be launched.
    Launch(RnsFoldLaunch),
}

/// `n`, or one where there are none.
pub open spec fn width(n: int) -> int {
    if n > 0 {
        n
    } else {
        1
    }
}

/// The Montgomery form of the residue of an integer.
pub open spec fn mont_residue(x: int, p: int) -> int {
    (x * mont::radix()) % p
}

/// Place `i` of the table of powers.
pub open spec fn power_entry(b: &RnsFoldBatch, i: int) -> int {
    let k = width(b.k as int);
    if b.k > 0 {
        pow(mont::radix(), (i % k + 2) as nat) % primes::prime(i / k)
    } else {
        0
    }
}

/// Place `i` of the table of coefficients.
pub open spec fn lam_entry(b: &RnsFoldBatch, i: int) -> int {
    let n = width(b.lams@.len() as int);
    if b.lams@.len() > 0 {
        mont_residue(b.lam(i % n), primes::prime(i / n))
    } else {
        0
    }
}

/// Place `i` of the table of multipliers.
pub open spec fn mult_entry(b: &RnsFoldBatch, i: int) -> int {
    let n = width(b.mults@.len() as int);
    if b.mults@.len() > 0 {
        mont_residue(b.mult_mag(i % n) as int, primes::prime(i / n))
    } else {
        0
    }
}

/// A table holds `f` at each of `n` places.
pub open spec fn holds_table(t: Seq<u64>, n: int, f: spec_fn(int) -> int) -> bool {
    &&& t.len() == n
    &&& forall|i: int| 0 <= i < n ==> #[trigger] t[i] == f(i)
}

/// Column `acol` belongs to attempt `a`.
pub open spec fn belongs(b: &RnsFoldBatch, a: int, acol: int) -> bool {
    b.acol_ptr@[a] <= acol < b.acol_ptr@[a + 1]
}

/// The tables have lengths that a word can hold.
pub open spec fn tables_fit(b: &RnsFoldBatch) -> bool {
    &&& 64 * b.k <= usize::MAX
    &&& 64 * b.lams@.len() <= usize::MAX
    &&& 64 * b.mults@.len() <= usize::MAX
}

impl RnsFoldLaunch {
    /// The launch belongs to the batch.
    pub open spec fn describes(&self, b: &RnsFoldBatch) -> bool {
        let c = b.channels() as int;
        &&& self.n_acols == b.concl_slot@.len()
        &&& self.n_slots == b.n_slots as u32
        &&& self.k == b.k as u32
        &&& self.n_lams == width(b.lams@.len() as int) as u32
        &&& self.n_mults == width(b.mults@.len() as int) as u32
        &&& self.primes@ == PRIMES@.take(c)
        &&& self.pinvs@.len() == c
        &&& forall|j: int|
            0 <= j < c ==> nt::cong(primes::prime(j) * #[trigger] self.pinvs@[j], -1, mont::radix())
        &&& holds_table(self.powr2@, c * width(b.k as int), |i: int| power_entry(b, i))
        &&& holds_table(self.lamres@, c * width(b.lams@.len() as int), |i: int| lam_entry(b, i))
        &&& holds_table(self.multres@, c * width(b.mults@.len() as int), |i: int| mult_entry(b, i))
        &&& self.sign@.len() == b.n_slots
        &&& forall|s: int| 0 <= s < b.n_slots ==> #[trigger] self.sign@[s] == b.sign@[s]
        &&& self.acol_attempt@.len() == b.concl_slot@.len()
        &&& forall|a: int, acol: int|
            0 <= a < b.attempts() && #[trigger] belongs(b, a, acol) ==> self.acol_attempt@[acol]
                == a as u32
        &&& self.config == (LaunchConfig {
            grid_dim: (super::host::blocks(b.concl_slot@.len() as int) as u32, c as u32, 1),
            block_dim: (super::host::BLOCK_1D, 1, 1),
            shared_mem_bytes: 0,
        })
        &&& self.refused@.len() == b.attempts()
        &&& forall|a: int| 0 <= a < b.attempts() ==> #[trigger] self.refused@[a] == b.beyond_table(a)
    }
}

/// The place of item `l` in row `c`.
proof fn lemma_place(c: int, n: int, l: int)
    requires
        0 <= c,
        0 <= l < n,
    ensures
        (c * n + l) / n == c,
        (c * n + l) % n == l,
{
    vstd::arithmetic::div_mod::lemma_fundamental_div_mod_converse(c * n + l, n, c, l);
}

/// The row and the column of a place.
proof fn lemma_row_column(i: int, c: int, n: int)
    requires
        0 <= i < c * n,
        n > 0,
    ensures
        0 <= i / n < c,
        0 <= i % n < n,
{
    vstd::arithmetic::div_mod::lemma_fundamental_div_mod(i, n);
    assert(0 <= i / n < c) by (nonlinear_arith)
        requires
            i == n * (i / n) + i % n,
            0 <= i % n < n,
            0 <= i < c * n,
            n > 0,
    ;
}

/// The moduli are odd.
proof fn lemma_odd(j: int)
    requires
        0 <= j < 64,
    ensures
        PRIMES@[j] % 2 == 1,
{
}

/// Entering Montgomery form from a residue.
proof fn lemma_enter(x: int, r: int, p: int)
    requires
        p > 0,
        r == x % p,
    ensures
        (r * mont::radix()) % p == mont_residue(x, p),
{
    nt::cong_mod(x, p);
    nt::cong_scale(mont::radix(), r, x, p);
    assert(mont::radix() * r == r * mont::radix() && mont::radix() * x == x * mont::radix());
    nt::cong_iff_mod(r * mont::radix(), x * mont::radix(), p);
}

/// One power more.
proof fn lemma_next_power(x: u64, base: u64, e: nat, p: int)
    requires
        p > 0,
        x == pow(mont::radix(), e) % p,
        base == mont::radix() % p,
    ensures
        (x * base) % p == pow(mont::radix(), (e + 1) as nat) % p,
{
    let r: int = mont::radix();
    nt::cong_mod(pow(r, e), p);
    nt::cong_mod(r, p);
    nt::cong_times(x as int, pow(r, e), base as int, r, p);
    assert(pow(r, (e + 1) as nat) == r * pow(r, e)) by {
        reveal(pow);
    }
    assert(pow(r, e) * r == r * pow(r, e)) by (nonlinear_arith);
    nt::cong_iff_mod(x * base, pow(r, e) * r, p);
}

/// The powers of the radix, per channel and limb.
fn power_table(b: &RnsFoldBatch, channels: usize) -> (t: Vec<u64>)
    requires
        channels <= 64,
    ensures
        holds_table(t@, channels * width(b.k as int), |i: int| power_entry(b, i)),
{
    let mut t: Vec<u64> = Vec::new();
    let mut c: usize = 0;
    while c < channels
        invariant
            c <= channels <= 64,
            holds_table(t@, c * width(b.k as int), |i: int| power_entry(b, i)),
        decreases channels - c,
    {
        proof {
            crate::rnsfold::channels::lemma_prime_range(c as int);
        }
        let p: u64 = PRIMES[c];
        let base: u64 = to_mont(1, p);
        let mut x: u64 = to_mont(base, p);
        let ghost k: int = width(b.k as int);
        let ghost q: int = p as int;
        proof {
            let r: int = mont::radix();
            assert(1 * r == r);
            lemma_enter(r, base as int, q);
            assert(pow(r, 2) == r * r) by {
                reveal(pow);
                lemma_pow1(r);
            }
        }
        if b.k == 0 {
            t.push(0);
            assert(c * 1 + 1 == (c + 1) * 1);
        } else {
            let mut l: usize = 0;
            assert(c * k + 0 == c * k);
            while l < b.k
                invariant
                    c < channels <= 64,
                    p == PRIMES@[c as int],
                    q == p,
                    q == primes::prime(c as int),
                    q > 0,
                    p < 0x8000_0000_0000_0000,
                    b.k > 0,
                    k == b.k,
                    k == width(b.k as int),
                    base == mont::radix() % q,
                    base < p,
                    x < p,
                    x == pow(mont::radix(), (l + 2) as nat) % q,
                    l <= b.k,
                    holds_table(t@, c * k + l, |i: int| power_entry(b, i)),
                decreases b.k - l,
            {
                proof {
                    lemma_place(c as int, k, l as int);
                    assert(power_entry(b, c * k + l) == x);
                    lemma_next_power(x, base, (l + 2) as nat, q);
                    crate::nullspace::arith::lemma_wide_product(x, base);
                }
                t.push(x);
                x = (x as u128 * base as u128 % p as u128) as u64;
                l = l + 1;
            }
            assert(c * k + k == (c + 1) * k) by (nonlinear_arith);
        }
        c = c + 1;
    }
    t
}

/// The residues of the coefficients, per channel.
fn lam_table(b: &RnsFoldBatch, channels: usize) -> (t: Vec<u64>)
    requires
        channels <= 64,
        64 * b.lams@.len() <= usize::MAX,
    ensures
        holds_table(t@, channels * width(b.lams@.len() as int), |i: int| lam_entry(b, i)),
{
    let n: usize = if b.lams.len() > 0 {
        b.lams.len()
    } else {
        1
    };
    assert(channels * n <= 64 * n) by (nonlinear_arith)
        requires
            channels <= 64,
            n >= 0,
    ;
    let total: usize = channels * n;
    let f = |i: usize| -> (w: u64)
        requires
            i < total,
            total == channels * n,
            n == width(b.lams@.len() as int),
            channels <= 64,
        ensures
            w == lam_entry(b, i as int),
        {
            proof {
                lemma_row_column(i as int, channels as int, n as int);
                crate::rnsfold::channels::lemma_prime_range(i as int / n as int);
            }
            if b.lams.len() == 0 {
                0
            } else {
                let p: u64 = PRIMES[i / n];
                let l: usize = i % n;
                let r: u64 = residue_signed(b.lams[l].0, b.lams[l].1.as_slice(), p);
                proof {
                    lemma_enter(b.lam(l as int), r as int, p as int);
                }
                to_mont(r, p)
            }
        };
    let t: Vec<u64> = par_map(total, f);
    assert forall|i: int| 0 <= i < total implies #[trigger] t@[i] == lam_entry(b, i) by {
        assert(call_ensures(f, (i as usize,), t@[i as usize as int]));
    }
    t
}

/// The residues of the multipliers, per channel.
fn mult_table(b: &RnsFoldBatch, channels: usize) -> (t: Vec<u64>)
    requires
        channels <= 64,
        64 * b.mults@.len() <= usize::MAX,
    ensures
        holds_table(t@, channels * width(b.mults@.len() as int), |i: int| mult_entry(b, i)),
{
    let n: usize = if b.mults.len() > 0 {
        b.mults.len()
    } else {
        1
    };
    assert(channels * n <= 64 * n) by (nonlinear_arith)
        requires
            channels <= 64,
            n >= 0,
    ;
    let total: usize = channels * n;
    let f = |i: usize| -> (w: u64)
        requires
            i < total,
            total == channels * n,
            n == width(b.mults@.len() as int),
            channels <= 64,
        ensures
            w == mult_entry(b, i as int),
        {
            proof {
                lemma_row_column(i as int, channels as int, n as int);
                crate::rnsfold::channels::lemma_prime_range(i as int / n as int);
            }
            if b.mults.len() == 0 {
                0
            } else {
                let p: u64 = PRIMES[i / n];
                let l: usize = i % n;
                let r: u64 = residue_of_limbs(b.mults[l].as_slice(), p);
                proof {
                    lemma_enter(b.mult_mag(l as int) as int, r as int, p as int);
                }
                to_mont(r, p)
            }
        };
    let t: Vec<u64> = par_map(total, f);
    assert forall|i: int| 0 <= i < total implies #[trigger] t@[i] == mult_entry(b, i) by {
        assert(call_ensures(f, (i as usize,), t@[i as usize as int]));
    }
    t
}

/// The attempt of each column.
fn attempt_table(b: &RnsFoldBatch) -> (t: Vec<u32>)
    requires
        b.valid(),
    ensures
        t@.len() == b.concl_slot@.len(),
        forall|a: int, acol: int|
            0 <= a < b.attempts() && #[trigger] belongs(b, a, acol) ==> t@[acol] == a as u32,
{
    let n: usize = b.n_attempts();
    let mut t: Vec<u32> = Vec::new();
    let mut a: usize = 0;
    while a < n
        invariant
            b.valid(),
            n == b.attempts(),
            n == b.acol_ptr.len() - 1,
            a <= n,
            t@.len() == b.acol_ptr@[a as int],
            forall|x: int, acol: int|
                0 <= x < a && #[trigger] belongs(b, x, acol) ==> t@[acol] == x as u32,
        decreases n - a,
    {
        let ghost had: Seq<u32> = t@;
        assert(b.acol_ptr@[a as int] <= b.acol_ptr@[a + 1]);
        let mut acol: u32 = b.acol_ptr[a];
        let hi: u32 = b.acol_ptr[a + 1];
        while acol < hi
            invariant
                acol <= hi,
                t@.len() == acol,
                had.len() <= acol,
                forall|i: int| 0 <= i < had.len() ==> t@[i] == had[i],
                forall|i: int| had.len() <= i < acol ==> t@[i] == a as u32,
            decreases hi - acol,
        {
            t.push(a as u32);
            acol = acol + 1;
        }
        assert forall|x: int, c: int| 0 <= x < a + 1 && #[trigger] belongs(b, x, c) implies t@[c]
            == x as u32 by {
            if x < a {
                assert(b.acol_ptr@[x + 1] <= b.acol_ptr@[a as int]);
                assert(t@[c] == had[c]);
            }
        }
        a = a + 1;
    }
    t
}

/// The signs of the slots.
fn sign_table(b: &RnsFoldBatch) -> (t: Vec<i32>)
    requires
        b.sign@.len() == b.n_slots,
    ensures
        t@.len() == b.n_slots,
        forall|s: int| 0 <= s < b.n_slots ==> #[trigger] t@[s] == b.sign@[s],
{
    let mut t: Vec<i32> = Vec::new();
    let mut s: usize = 0;
    while s < b.sign.len()
        invariant
            s <= b.sign@.len(),
            t@.len() == s,
            forall|i: int| 0 <= i < s ==> #[trigger] t@[i] == b.sign@[i],
        decreases b.sign@.len() - s,
    {
        t.push(b.sign[s] as i32);
        s = s + 1;
    }
    t
}

/// The moduli of the channels.
fn prime_table(channels: usize) -> (t: Vec<u64>)
    requires
        channels <= 64,
    ensures
        t@ == PRIMES@.take(channels as int),
{
    let mut t: Vec<u64> = Vec::new();
    let mut c: usize = 0;
    while c < channels
        invariant
            c <= channels <= 64,
            t@ == PRIMES@.take(c as int),
        decreases channels - c,
    {
        t.push(PRIMES[c]);
        c = c + 1;
        assert(t@ =~= PRIMES@.take(c as int));
    }
    t
}

/// The negated inverses of the moduli.
fn inverse_table(channels: usize) -> (t: Vec<u64>)
    requires
        channels <= 64,
    ensures
        t@.len() == channels,
        forall|j: int|
            0 <= j < channels ==> nt::cong(primes::prime(j) * #[trigger] t@[j], -1, mont::radix()),
{
    let mut t: Vec<u64> = Vec::new();
    let mut c: usize = 0;
    while c < channels
        invariant
            c <= channels <= 64,
            t@.len() == c,
            forall|j: int|
                0 <= j < c ==> nt::cong(primes::prime(j) * #[trigger] t@[j], -1, mont::radix()),
        decreases channels - c,
    {
        proof {
            lemma_odd(c as int);
        }
        t.push(neg_inv_u64(PRIMES[c]));
        c = c + 1;
    }
    t
}

/// What stands between a batch and its launch: the batch is validated, its channels are
/// planned, and its tables are built. Where there are no attempts or no columns, nothing is
/// launched. A valid batch has at most 64 channels and fewer than `2^32` columns, so its grid
/// can be expressed.
pub fn prepare(b: &RnsFoldBatch) -> (r: Result<RnsFoldStep, GpuError>)
    requires
        b.valid() && b.attempts() > 0 && b.concl_slot@.len() > 0 ==> tables_fit(b),
    ensures
        r is Ok <==> b.valid(),
        r matches Err(e) ==> (e matches GpuError::Batch(d) && b.is_first_defect(d)),
        r matches Ok(RnsFoldStep::Done(out)) ==> (b.attempts() == 0 || b.concl_slot@.len() == 0)
            && reference::exact(b, out),
        r matches Ok(RnsFoldStep::Launch(l)) ==> b.attempts() > 0 && b.concl_slot@.len() > 0
            && l.describes(b),
{
    match b.validate() {
        Ok(_) => {},
        Err(e) => return Err(GpuError::Batch(e)),
    }
    let (channels, refused): (usize, Vec<bool>) = b.plan_channels();
    let n_attempts: usize = b.n_attempts();
    let n_acols: usize = b.concl_slot.len();
    if n_attempts == 0 || n_acols == 0 {
        let mut fold_ok: Vec<bool> = Vec::new();
        let mut a: usize = 0;
        while a < n_attempts
            invariant
                b.valid(),
                n_attempts == b.attempts(),
                n_attempts == 0 || b.concl_slot@.len() == 0,
                refused@.len() == n_attempts,
                forall|i: int| 0 <= i < n_attempts ==> #[trigger] refused@[i] == b.beyond_table(i),
                a <= n_attempts,
                fold_ok@.len() == a,
                forall|i: int|
                    0 <= i < a ==> #[trigger] fold_ok@[i] == (!b.beyond_table(i) && b.holds(i)),
            decreases n_attempts - a,
        {
            proof {
                b.lemma_attempt(a as int);
                assert(b.holds(a as int));
            }
            fold_ok.push(!refused[a]);
            a = a + 1;
        }
        return Ok(RnsFoldStep::Done(RnsFoldOutcome { fold_ok, refused, channels_used: channels }));
    }
    proof {
        assert(b.acol_ptr@[b.acol_ptr@.len() - 1] == n_acols);
    }
    let gx: usize = n_acols / 256 + if n_acols % 256 != 0 {
        1
    } else {
        0
    };
    let l: RnsFoldLaunch = RnsFoldLaunch {
        n_acols: n_acols as u32,
        n_slots: b.n_slots as u32,
        k: b.k as u32,
        n_lams: (if b.lams.len() > 0 {
            b.lams.len()
        } else {
            1
        }) as u32,
        n_mults: (if b.mults.len() > 0 {
            b.mults.len()
        } else {
            1
        }) as u32,
        primes: prime_table(channels),
        pinvs: inverse_table(channels),
        powr2: power_table(b, channels),
        lamres: lam_table(b, channels),
        multres: mult_table(b, channels),
        sign: sign_table(b),
        acol_attempt: attempt_table(b),
        config: LaunchConfig {
            grid_dim: (gx as u32, channels as u32, 1),
            block_dim: (256, 1, 1),
            shared_mem_bytes: 0,
        },
        refused,
    };
    Ok(RnsFoldStep::Launch(l))
}

/// The outcome of a launch whose kernel raised `flags`: an attempt holds where it was not
/// refused and no flag was raised.
pub fn finish(l: RnsFoldLaunch, flags: &Vec<u32>) -> (out: RnsFoldOutcome)
    requires
        flags@.len() == l.refused@.len(),
    ensures
        out.channels_used == l.primes@.len(),
        out.refused@ == l.refused@,
        out.fold_ok@.len() == l.refused@.len(),
        forall|a: int|
            0 <= a < l.refused@.len() ==> #[trigger] out.fold_ok@[a] == (!l.refused@[a]
                && flags@[a] == 0),
{
    let mut fold_ok: Vec<bool> = Vec::new();
    let mut a: usize = 0;
    while a < flags.len()
        invariant
            flags@.len() == l.refused@.len(),
            a <= flags@.len(),
            fold_ok@.len() == a,
            forall|i: int|
                0 <= i < a ==> #[trigger] fold_ok@[i] == (!l.refused@[i] && flags@[i] == 0),
        decreases flags@.len() - a,
    {
        fold_ok.push(!l.refused[a] && flags[a] == 0);
        a = a + 1;
    }
    RnsFoldOutcome { fold_ok, refused: l.refused, channels_used: l.primes.len() }
}

/// Some difference of attempt `a` does not vanish in some channel.
pub open spec fn mismatch(b: &RnsFoldBatch, a: int) -> bool {
    exists|acol: int, j: int|
        #[trigger] belongs(b, a, acol) && 0 <= j < b.channels() && !nt::cong(
            b.delta(acol),
            0,
            #[trigger] primes::prime(j),
        )
}

/// Where the kernel raises the flag of an attempt exactly if some difference does not vanish
/// in some channel, the outcome is the exact one, as the scalar lane reports it.
pub proof fn law_lane_is_exact(
    b: &RnsFoldBatch,
    l: RnsFoldLaunch,
    flags: Seq<u32>,
    out: RnsFoldOutcome,
)
    requires
        b.valid(),
        l.describes(b),
        flags.len() == b.attempts(),
        forall|a: int| 0 <= a < b.attempts() ==> (#[trigger] flags[a] != 0 <==> mismatch(b, a)),
        out.channels_used == l.primes@.len(),
        out.refused@ == l.refused@,
        out.fold_ok@.len() == l.refused@.len(),
        forall|a: int|
            0 <= a < l.refused@.len() ==> #[trigger] out.fold_ok@[a] == (!l.refused@[a]
                && flags[a] == 0),
    ensures
        reference::exact(b, out),
{
    planes::lemma_largest_bound(b.channel_counts(), 0, b.attempts(), 64);
    assert forall|a: int| 0 <= a < b.attempts() implies #[trigger] out.fold_ok@[a] == (
    !b.beyond_table(a) && b.holds(a)) by {
        assert(l.refused@[a] == b.beyond_table(a));
        assert(flags[a] != 0 <==> mismatch(b, a));
        if !b.beyond_table(a) {
            if b.holds(a) {
                if mismatch(b, a) {
                    let (acol, j) = choose|acol: int, j: int|
                        #[trigger] belongs(b, a, acol) && 0 <= j < b.channels() && !nt::cong(
                            b.delta(acol),
                            0,
                            #[trigger] primes::prime(j),
                        );
                    reference::law_planned_channels_decide(b, a, acol);
                    assert(b.delta(acol) == 0);
                }
            } else {
                let acol: int = choose|acol: int|
                    b.acol_ptr@[a] <= acol < b.acol_ptr@[a + 1] && #[trigger] b.delta(acol) != 0;
                reference::law_planned_channels_decide(b, a, acol);
                assert(belongs(b, a, acol));
                assert(mismatch(b, a));
            }
        }
    }
}

/// Where the kernel raises the flag of an attempt exactly if some difference does not vanish
/// in some channel, the device lane reports what the scalar lane reports, field by field.
pub proof fn law_lane_agrees_with_reference(
    b: &RnsFoldBatch,
    l: RnsFoldLaunch,
    flags: Seq<u32>,
    out: RnsFoldOutcome,
    r: Result<RnsFoldOutcome, BatchError>,
)
    requires
        b.valid(),
        l.describes(b),
        flags.len() == b.attempts(),
        forall|a: int| 0 <= a < b.attempts() ==> (#[trigger] flags[a] != 0 <==> mismatch(b, a)),
        out.channels_used == l.primes@.len(),
        out.refused@ == l.refused@,
        out.fold_ok@.len() == l.refused@.len(),
        forall|a: int|
            0 <= a < l.refused@.len() ==> #[trigger] out.fold_ok@[a] == (!l.refused@[a]
                && flags[a] == 0),
        reference::is_outcome(b, r),
    ensures
        reference::same_outcome(Ok(out), r),
{
    law_lane_is_exact(b, l, flags, out);
    reference::law_outcome_unique(b, Ok(out), r);
}

} // verus!
