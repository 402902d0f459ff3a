//! `rnsfold` against the same predicate in arbitrary-precision integers.

use maitria_kernels::cuda::rnsfold as device;
use maitria_kernels::cuda::GpuError;
use maitria_kernels::mont::{neg_inv_u64, to_mont};
use maitria_kernels::rnsfold::batch::{BatchError, RnsFoldBatch, ABSENT};
use maitria_kernels::rnsfold::primes::{
    addmod, bits_of_limbs, channels_for_bits, mulmod, residue_of_limbs, residue_signed, PRIMES,
};
use maitria_kernels::rnsfold::reference;
use num_bigint::{BigInt, BigUint, Sign};
use num_traits::Zero;

fn big_from_limbs(limbs: &[u64]) -> BigUint {
    let mut digits = Vec::with_capacity(limbs.len() * 2);
    for &l in limbs {
        digits.push((l & 0xFFFF_FFFF) as u32);
        digits.push((l >> 32) as u32);
    }
    BigUint::new(digits)
}

fn signed_from(sign: i8, limbs: &[u64]) -> BigInt {
    let mag = big_from_limbs(limbs);
    match sign {
        0 => BigInt::zero(),
        s if s > 0 => BigInt::from_biguint(Sign::Plus, mag),
        _ => BigInt::from_biguint(Sign::Minus, mag),
    }
}

fn limbs_of(v: &BigUint) -> Vec<u64> {
    v.to_u64_digits()
}

fn slot_value(b: &RnsFoldBatch, s: usize) -> BigInt {
    let limbs: Vec<u64> = (0..b.k).map(|l| b.mag[l * b.n_slots + s]).collect();
    let raw = signed_from(b.sign[s], &limbs);
    let m = BigInt::from_biguint(Sign::Plus, big_from_limbs(&b.mults[b.mult_id[s] as usize]));
    raw * m
}

fn delta(b: &RnsFoldBatch, acol: usize) -> BigInt {
    let mut acc = BigInt::zero();
    for i in b.csc_ptr[acol] as usize..b.csc_ptr[acol + 1] as usize {
        let (ls, lm) = &b.lams[b.csc_lam[i] as usize];
        acc += signed_from(*ls, lm) * slot_value(b, b.csc_slot[i] as usize);
    }
    let c = b.concl_slot[acol];
    if c != ABSENT {
        acc -= slot_value(b, c as usize);
    }
    acc
}

fn bigint_verify(b: &RnsFoldBatch) -> Vec<bool> {
    (0..b.n_attempts())
        .map(|a| {
            (b.acol_ptr[a] as usize..b.acol_ptr[a + 1] as usize)
                .all(|acol| delta(b, acol).is_zero())
        })
        .collect()
}

fn is_prime_u64(n: u64) -> bool {
    if n < 2 {
        return false;
    }
    for p in [2u64, 3, 5, 7, 11, 13, 17, 19, 23, 29, 31, 37] {
        if n % p == 0 {
            return n == p;
        }
    }
    let mut d = n - 1;
    let mut s = 0u32;
    while d % 2 == 0 {
        d /= 2;
        s += 1;
    }
    let powmod = |mut b: u64, mut e: u64, m: u64| -> u64 {
        let mut r: u64 = 1;
        b %= m;
        while e > 0 {
            if e & 1 == 1 {
                r = mulmod(r, b, m);
            }
            b = mulmod(b, b, m);
            e >>= 1;
        }
        r
    };
    for a in [2u64, 325, 9375, 28178, 450775, 9780504, 1795265022] {
        let a = a % n;
        if a == 0 {
            continue;
        }
        let mut x = powmod(a, d, n);
        if x == 1 || x == n - 1 {
            continue;
        }
        let mut passed = false;
        for _ in 1..s {
            x = mulmod(x, x, n);
            if x == n - 1 {
                passed = true;
                break;
            }
        }
        if !passed {
            return false;
        }
    }
    true
}

#[test]
fn prime_table_is_prime_distinct_63bit_descending() {
    for w in PRIMES.windows(2) {
        assert!(w[0] > w[1], "descending, distinct");
    }
    for &p in &PRIMES {
        assert!(p > 1 << 62 && p < 1 << 63, "63-bit: {p}");
        assert!(is_prime_u64(p), "not prime: {p}");
    }
}

#[test]
fn residue_helpers_match_bigint() {
    let cases: Vec<Vec<u64>> = vec![
        vec![],
        vec![0],
        vec![1],
        vec![u64::MAX],
        vec![u64::MAX, u64::MAX, u64::MAX],
        vec![0, 0, 1],
        vec![123456789, 987654321, 0xDEAD_BEEF_CAFE_F00D],
    ];
    for limbs in &cases {
        let v = big_from_limbs(limbs);
        for &p in &PRIMES[..8] {
            let want = (&v % BigUint::from(p)).to_u64_digits();
            let want = want.first().copied().unwrap_or(0);
            assert_eq!(residue_of_limbs(limbs, p), want, "limbs {limbs:?} mod {p}");
            let neg = residue_signed(if v.is_zero() { 0 } else { -1 }, limbs, p);
            let want_neg = if want == 0 { 0 } else { p - want };
            assert_eq!(neg, want_neg);
        }
    }
    for &p in &PRIMES[..4] {
        for &(a, b) in &[(p - 1, p - 1), (p - 1, 1), (0, 0), (1, p - 1)] {
            assert_eq!(
                addmod(a, b, p) as u128,
                ((a as u128) + (b as u128)) % p as u128
            );
            assert_eq!(mulmod(a, b, p) as u128, (a as u128 * b as u128) % p as u128);
        }
    }
}

#[derive(Debug)]
struct Nested {
    attempts: Vec<NestedAttempt>,
}

#[derive(Debug)]
struct NestedAttempt {
    n_cols: u32,
    lams: Vec<BigInt>,
    rows: Vec<Vec<(u32, BigInt)>>,
    concl: Vec<(u32, BigInt)>,
}

fn sign_of(v: &BigInt) -> i8 {
    match v.sign() {
        Sign::NoSign => 0i8,
        Sign::Plus => 1,
        Sign::Minus => -1,
    }
}

fn build(nested: &Nested, mults: &[BigUint]) -> RnsFoldBatch {
    let mut b = RnsFoldBatch {
        mults: mults.iter().map(limbs_of).collect(),
        ..Default::default()
    };
    assert_eq!(b.mults[0], vec![1]);
    let mut slot_vals: Vec<(i8, BigUint, u32)> = Vec::new();
    b.acol_ptr.push(0);
    b.csc_ptr.push(0);
    for at in &nested.attempts {
        for l in &at.lams {
            b.lams.push((sign_of(l), limbs_of(l.magnitude())));
        }
        let lam_base = (b.lams.len() - at.lams.len()) as u32;
        let mut cols: Vec<Vec<(u32, u32)>> = vec![Vec::new(); at.n_cols as usize];
        for (e, row) in at.rows.iter().enumerate() {
            for (col, v) in row {
                let mult = (e % b.mults.len()) as u32;
                slot_vals.push((sign_of(v), v.magnitude().clone(), mult));
                cols[*col as usize].push((lam_base + e as u32, slot_vals.len() as u32 - 1));
            }
        }
        let mut concl: Vec<u32> = vec![ABSENT; at.n_cols as usize];
        for (col, v) in &at.concl {
            slot_vals.push((sign_of(v), v.magnitude().clone(), 0));
            concl[*col as usize] = slot_vals.len() as u32 - 1;
        }
        for col in 0..at.n_cols as usize {
            for &(l, s) in &cols[col] {
                b.csc_lam.push(l);
                b.csc_slot.push(s);
            }
            b.csc_ptr.push(b.csc_lam.len() as u32);
            b.concl_slot.push(concl[col]);
        }
        b.acol_ptr.push(b.concl_slot.len() as u32);
    }
    b.n_slots = slot_vals.len();
    b.k = slot_vals
        .iter()
        .map(|(_, m, _)| limbs_of(m).len())
        .max()
        .unwrap_or(1)
        .max(1);
    b.sign = slot_vals.iter().map(|(s, _, _)| *s).collect();
    b.mult_id = slot_vals.iter().map(|(_, _, m)| *m).collect();
    b.mag = vec![0; b.k * b.n_slots];
    for (i, (_, m, _)) in slot_vals.iter().enumerate() {
        for (l, limb) in limbs_of(m).into_iter().enumerate() {
            b.mag[l * b.n_slots + i] = limb;
        }
    }
    b
}

fn small_mults() -> Vec<BigUint> {
    vec![
        BigUint::from(1u32),
        BigUint::from(7u32),
        BigUint::from(360360u32),
        BigUint::from(u64::MAX) * BigUint::from(u64::MAX),
    ]
}

struct Draw(u64);

impl Draw {
    fn word(&mut self) -> u64 {
        self.0 ^= self.0 << 13;
        self.0 ^= self.0 >> 7;
        self.0 ^= self.0 << 17;
        self.0
    }

    fn below(&mut self, n: u64) -> u64 {
        self.word() % n
    }

    fn big(&mut self, bits: u32) -> BigInt {
        let n = self.below(bits as u64 / 64 + 2) as usize;
        let limbs: Vec<u64> = (0..n).map(|_| self.word()).collect();
        let v = BigInt::from_biguint(Sign::Plus, big_from_limbs(&limbs));
        let m = BigInt::from(1) << bits;
        let v = v % &m;
        if self.below(2) == 0 {
            -v
        } else {
            v
        }
    }

    fn row(&mut self, n_cols: u32, bits: u32, shift: u32) -> Vec<(u32, BigInt)> {
        let mut seen = std::collections::BTreeMap::new();
        for _ in 0..self.below(n_cols as u64 + 1) {
            let c = self.below(n_cols as u64) as u32;
            seen.insert(c, self.big(bits) << shift);
        }
        seen.into_iter().collect()
    }

    fn attempt(&mut self, bits: u32, shift: u32) -> NestedAttempt {
        let n_cols = 1 + self.below(7) as u32;
        let n = 1 + self.below(5) as usize;
        NestedAttempt {
            n_cols,
            lams: (0..n).map(|_| self.big(bits)).collect(),
            rows: (0..n).map(|_| self.row(n_cols, bits, shift)).collect(),
            concl: self.row(n_cols, bits, shift),
        }
    }

    fn nested(&mut self, bits: u32, shift: u32) -> Nested {
        let n = 1 + self.below(4);
        Nested {
            attempts: (0..n).map(|_| self.attempt(bits, shift)).collect(),
        }
    }
}

#[test]
fn reference_matches_bigint_partner() {
    let mut d = Draw(0x853c_49e6_748f_ea9b);
    for round in 0..90u32 {
        let shift = [0u32, 80, 560][round as usize % 3];
        let b = build(&d.nested(40, shift), &small_mults());
        assert!(b.validate().is_ok());
        let out = reference::verify(&b).unwrap();
        for (a, w) in bigint_verify(&b).iter().enumerate() {
            assert!(!out.refused[a], "no refusal expected at these shapes");
            assert_eq!(out.fold_ok[a], *w, "attempt {a}");
        }
    }
}

/// An attempt whose conclusion is its fold.
fn accepting(d: &mut Draw) -> Nested {
    let mults = small_mults();
    let n_cols = 6u32;
    let n = 1 + d.below(4) as usize;
    let lams: Vec<BigInt> = (0..n).map(|_| d.big(90)).collect();
    let rows: Vec<Vec<(u32, BigInt)>> = (0..n).map(|_| d.row(n_cols, 64, 0)).collect();
    let mut fold = vec![BigInt::zero(); n_cols as usize];
    for e in 0..n {
        let m = BigInt::from_biguint(Sign::Plus, mults[e % mults.len()].clone());
        for (c, v) in &rows[e] {
            fold[*c as usize] += &lams[e] * v * &m;
        }
    }
    let concl: Vec<(u32, BigInt)> = fold
        .iter()
        .enumerate()
        .filter(|(_, v)| !v.is_zero())
        .map(|(c, v)| (c as u32, v.clone()))
        .collect();
    Nested {
        attempts: vec![NestedAttempt {
            n_cols,
            lams,
            rows,
            concl,
        }],
    }
}

#[test]
fn accepts_accept_and_mutants_flip() {
    let mut d = Draw(0xda3e_39cb_94b9_5bdb);
    for _ in 0..60 {
        let mut b = build(&accepting(&mut d), &small_mults());
        assert!(b.validate().is_ok());
        let out = reference::verify(&b).unwrap();
        assert!(out.fold_ok[0], "constructed accept must accept");
        assert_eq!(out.fold_ok, bigint_verify(&b));
        if b.n_slots > 0 {
            let s = d.below(b.n_slots as u64) as usize;
            b.mag[s] ^= 1;
            if b.slot_bits(s) == 0 {
                b.sign[s] = 0;
            } else if b.sign[s] == 0 {
                b.sign[s] = 1;
            }
            let out = reference::verify(&b).unwrap();
            assert_eq!(out.fold_ok, bigint_verify(&b), "mutant must track ground truth");
        }
    }
}

#[test]
fn required_bits_bounds_delta() {
    let mut d = Draw(0x1d87_2b41_0f21_aa05);
    for _ in 0..60 {
        let b = build(&d.nested(200, 0), &small_mults());
        assert!(b.validate().is_ok());
        for a in 0..b.n_attempts() {
            let bound = BigInt::from(1) << b.required_bits(a);
            for acol in b.acol_ptr[a] as usize..b.acol_ptr[a + 1] as usize {
                assert!(delta(&b, acol).magnitude() < bound.magnitude());
            }
        }
    }
}

#[test]
fn plan_channels_matches_required_bits_map() {
    let mut d = Draw(0x6a09_e667_f3bc_c909);
    for _ in 0..60 {
        let b = build(&d.nested(200, 0), &small_mults());
        assert!(b.validate().is_ok());
        let (channels, refused) = b.plan_channels();
        let mut want_channels = 1usize;
        assert_eq!(refused.len(), b.n_attempts());
        for (a, &attempt_refused) in refused.iter().enumerate() {
            match channels_for_bits(b.required_bits(a)) {
                Some(c) => {
                    want_channels = want_channels.max(c);
                    assert!(!attempt_refused);
                }
                None => assert!(attempt_refused),
            }
        }
        assert_eq!(channels, want_channels);
    }
}

#[test]
fn bits_of_limbs_edges() {
    assert_eq!(bits_of_limbs(&[]), 0);
    assert_eq!(bits_of_limbs(&[0, 0]), 0);
    assert_eq!(bits_of_limbs(&[1]), 1);
    assert_eq!(bits_of_limbs(&[0, 1]), 65);
    assert_eq!(bits_of_limbs(&[u64::MAX]), 64);
}

#[test]
fn planted_multi_prime_divisible_delta_still_rejects() {
    let mut delta = BigInt::from(1);
    for &p in &PRIMES[..12] {
        delta *= BigInt::from(p);
    }
    let at = NestedAttempt {
        n_cols: 1,
        lams: vec![BigInt::from(1)],
        rows: vec![vec![(0u32, delta)]],
        concl: vec![],
    };
    let b = build(&Nested { attempts: vec![at] }, &small_mults());
    let out = reference::verify(&b).unwrap();
    assert!(!out.refused[0]);
    assert!(
        !out.fold_ok[0],
        "nonzero difference divisible by 12 primes must still reject"
    );
    assert!(
        out.channels_used > 12,
        "channel plan must out-run the planted divisibility"
    );
}

fn big_descriptor() -> RnsFoldBatch {
    let n: usize = 1 << 17;
    RnsFoldBatch {
        k: 1,
        n_slots: n,
        sign: vec![1; n],
        mag: vec![1u64; n],
        mult_id: vec![0; n],
        mults: vec![vec![1u64]],
        lams: vec![(1, vec![1u64])],
        acol_ptr: vec![0, 1],
        csc_ptr: vec![0, n as u32],
        csc_lam: vec![0; n],
        csc_slot: (0..n as u32).collect(),
        concl_slot: vec![ABSENT],
    }
}

#[test]
fn big_descriptor_validation_canonical_errors() {
    let n: usize = 1 << 17;
    let b = big_descriptor();
    b.validate().expect("clean big descriptor validates");
    let mut bad = b.clone();
    bad.csc_slot[12345] = n as u32;
    assert_eq!(bad.validate().unwrap_err(), BatchError::Index("csc_slot"));
    let mut bad = b.clone();
    bad.sign[54321] = 0;
    assert_eq!(bad.validate().unwrap_err(), BatchError::Sign(54321));
    let mut bad = b.clone();
    bad.mult_id[7] = 1;
    bad.mults.push(vec![0u64]);
    assert_eq!(bad.validate().unwrap_err(), BatchError::ZeroMult(1));
}

/// One column: 3 * 5 - 15.
fn tiny() -> RnsFoldBatch {
    RnsFoldBatch {
        k: 1,
        n_slots: 2,
        sign: vec![1, 1],
        mag: vec![5, 15],
        mult_id: vec![0, 0],
        mults: vec![vec![1]],
        lams: vec![(1, vec![3])],
        acol_ptr: vec![0, 1],
        csc_ptr: vec![0, 1],
        csc_lam: vec![0],
        csc_slot: vec![0],
        concl_slot: vec![1],
    }
}

#[test]
fn every_defect_is_named() {
    let b = tiny();
    assert_eq!(b.validate(), Ok(()));
    let mut bad = b.clone();
    bad.mag.pop();
    assert_eq!(
        bad.validate(),
        Err(BatchError::Structure("slot planes disagree with n_slots/k"))
    );
    let mut bad = b.clone();
    bad.acol_ptr = vec![0, 2];
    assert_eq!(bad.validate(), Err(BatchError::Structure("acol_ptr")));
    let mut bad = b.clone();
    bad.csc_ptr = vec![1, 1];
    assert_eq!(bad.validate(), Err(BatchError::Structure("csc_ptr")));
    let mut bad = b.clone();
    bad.csc_slot.push(0);
    assert_eq!(
        bad.validate(),
        Err(BatchError::Structure("csc_lam/csc_slot lengths differ"))
    );
    let mut bad = b.clone();
    bad.csc_ptr = vec![0, 0, 1];
    assert_eq!(
        bad.validate(),
        Err(BatchError::Structure("csc_ptr does not cover the acol space"))
    );
    let mut bad = b.clone();
    bad.lams[0].0 = 0;
    assert_eq!(bad.validate(), Err(BatchError::Sign(0)));
    let mut bad = b.clone();
    bad.csc_lam[0] = 1;
    assert_eq!(bad.validate(), Err(BatchError::Index("csc_lam")));
    let mut bad = b.clone();
    bad.concl_slot[0] = 2;
    assert_eq!(bad.validate(), Err(BatchError::Index("concl_slot")));
    let mut bad = b.clone();
    bad.mult_id[1] = 1;
    assert_eq!(bad.validate(), Err(BatchError::Index("mult_id")));
    assert_eq!(reference::verify(&bad), Err(BatchError::Index("mult_id")));
    assert_eq!(
        device::prepare(&bad),
        Err(GpuError::Batch(BatchError::Index("mult_id")))
    );
}

#[test]
fn bound_of_a_tiny_batch() {
    // Four bits of operand, of which one is the multiplier's, two of coefficient, one of count:
    // seven, which exceeds the five of the conclusion, and two more.
    let b = tiny();
    assert_eq!(b.required_bits(0), 9);
    assert_eq!(b.plan_channels(), (1, vec![false]));
    let out = reference::verify(&b).unwrap();
    assert_eq!(out.fold_ok, vec![true]);
    let mut other = b.clone();
    other.mag[1] = 16;
    assert_eq!(reference::verify(&other).unwrap().fold_ok, vec![false]);
}

#[test]
fn bounds_beyond_the_table_are_refused() {
    let mut b = tiny();
    b.k = 63;
    b.mag = vec![0; 126];
    b.mag[62 * 2] = 1;
    b.mag[1] = 15;
    let (channels, refused) = b.plan_channels();
    assert_eq!((channels, refused), (1, vec![true]));
    let out = reference::verify(&b).unwrap();
    assert_eq!((out.fold_ok, out.refused), (vec![false], vec![true]));
    assert_eq!(channels_for_bits(3967), Some(64));
    assert_eq!(channels_for_bits(3968), Some(64));
    assert_eq!(channels_for_bits(3969), None);
    assert_eq!(channels_for_bits(u64::MAX), None);
    assert_eq!(channels_for_bits(61), Some(1));
    assert_eq!(channels_for_bits(62), Some(2));
}

#[test]
fn the_whole_table_clears_its_last_bit() {
    // Coefficient 2 bits, operand 3962 + 1, terms 1, margin 2: 3968 bits in all.
    let mut b = tiny();
    b.k = 62;
    b.mag = vec![0; 124];
    b.mag[61 * 2] = 1 << 57;
    b.mag[61 * 2 + 1] = 3 << 57;
    assert_eq!(b.required_bits(0), 3968);
    assert_eq!(b.plan_channels(), (64, vec![false]));
    let out = reference::verify(&b).unwrap();
    assert_eq!((out.fold_ok, out.refused), (vec![true], vec![false]));
    b.mag[0] = 1;
    let out = reference::verify(&b).unwrap();
    assert_eq!((out.fold_ok, out.refused), (vec![false], vec![false]));
}

#[test]
fn montgomery_helpers() {
    for p in [3u64, 5, PRIMES[0], PRIMES[63]] {
        assert_eq!(p.wrapping_mul(neg_inv_u64(p)), u64::MAX);
        assert_eq!(to_mont(1, p) as u128, (1u128 << 64) % p as u128);
    }
}

/// What the kernel is meant to report: a flag where some difference does not vanish in some
/// channel.
fn flags_of(b: &RnsFoldBatch, channels: usize) -> Vec<u32> {
    (0..b.n_attempts())
        .map(|a| {
            let bad = (b.acol_ptr[a] as usize..b.acol_ptr[a + 1] as usize).any(|acol| {
                PRIMES[..channels]
                    .iter()
                    .any(|&p| !(delta(b, acol) % BigInt::from(p)).is_zero())
            });
            bad as u32
        })
        .collect()
}

#[test]
fn device_tables_hold_what_they_say() {
    let mut d = Draw(0xbb67_ae85_84ca_a73b);
    for _ in 0..20 {
        let b = build(&d.nested(100, 40), &small_mults());
        let l = match device::prepare(&b).unwrap() {
            device::RnsFoldStep::Launch(l) => l,
            device::RnsFoldStep::Done(_) => continue,
        };
        let (channels, refused) = b.plan_channels();
        assert_eq!(l.refused, refused);
        assert_eq!(l.primes, PRIMES[..channels].to_vec());
        assert_eq!(l.config.grid_dim.1, channels as u32);
        assert_eq!(l.config.grid_dim.0 as usize, (b.concl_slot.len() + 255) / 256);
        let radix = BigInt::from(1) << 64;
        for (c, &p) in l.primes.iter().enumerate() {
            let p_big = BigInt::from(p);
            assert_eq!(p.wrapping_mul(l.pinvs[c]), u64::MAX);
            for i in 0..b.k {
                let want = (BigInt::from(1) << (64 * (i + 2))) % &p_big;
                assert_eq!(BigInt::from(l.powr2[c * b.k + i]), want);
            }
            for (i, (s, m)) in b.lams.iter().enumerate() {
                let x = signed_from(*s, m) * &radix;
                let want = ((x % &p_big) + &p_big) % &p_big;
                assert_eq!(BigInt::from(l.lamres[c * b.lams.len() + i]), want);
            }
            for (i, m) in b.mults.iter().enumerate() {
                let want = (signed_from(1, m) * &radix) % &p_big;
                assert_eq!(BigInt::from(l.multres[c * b.mults.len() + i]), want);
            }
        }
        for a in 0..b.n_attempts() {
            for acol in b.acol_ptr[a]..b.acol_ptr[a + 1] {
                assert_eq!(l.acol_attempt[acol as usize], a as u32);
            }
        }
        for (x, y) in l.sign.iter().zip(&b.sign) {
            assert_eq!(*x, *y as i32);
        }
    }
}

#[test]
fn device_lane_agrees_with_the_scalar_lane() {
    let mut d = Draw(0x3c6e_f372_fe94_f82b);
    for round in 0..60 {
        let nested = if round % 2 == 0 { accepting(&mut d) } else { d.nested(80, 0) };
        let b = build(&nested, &small_mults());
        let want = reference::verify(&b).unwrap();
        let got = match device::prepare(&b).unwrap() {
            device::RnsFoldStep::Done(out) => out,
            device::RnsFoldStep::Launch(l) => {
                let flags = flags_of(&b, l.primes.len());
                device::finish(l, &flags)
            }
        };
        assert_eq!(got, want);
    }
}

#[test]
fn device_lane_without_columns_launches_nothing() {
    let b = RnsFoldBatch {
        acol_ptr: vec![0, 0, 0],
        csc_ptr: vec![0],
        ..Default::default()
    };
    match device::prepare(&b).unwrap() {
        device::RnsFoldStep::Done(out) => {
            assert_eq!(out.fold_ok, vec![true, true]);
            assert_eq!(out, reference::verify(&b).unwrap());
        }
        device::RnsFoldStep::Launch(_) => panic!("nothing to launch"),
    }
}

#[test]
fn fold_refusals_have_texts() {
    assert_eq!(
        BatchError::Structure("csc_ptr").text(),
        "malformed pointer plane: csc_ptr"
    );
    assert_eq!(BatchError::Index("csc_lam").text(), "index out of range: csc_lam");
    assert_eq!(
        BatchError::Sign(31).text(),
        "slot 31: sign not in -1/0/+1 or zero-inconsistent"
    );
    assert_eq!(
        BatchError::ZeroMult(2).text(),
        "mult 2 is zero (multipliers are positive)"
    );
}
