//! Nullspaces: the lanes against one another, against an exact elimination over rationals, and
//! against exact re-verification.

use maitria_kernels::nullspace;
use maitria_kernels::nullspace::arith;
use maitria_kernels::nullspace::clearing::clear_to_primitive;
use maitria_kernels::nullspace::fraction::{gcd_u128, isqrt_u128, ratrec};
use maitria_kernels::nullspace::verify::{check_nullvector, VerifyOverflow};
use maitria_kernels::nullspace::{
    lift, prime_ok, reference, sparse, ModpNullspace, NullspaceError, SparseVec, Triplets,
};
use maitria_kernels::rnsfold::primes::PRIMES;
use num_bigint::BigInt;
use num_traits::{One, Signed, Zero};

fn gcd_big(a: &BigInt, b: &BigInt) -> BigInt {
    let mut a = a.abs();
    let mut b = b.abs();
    while !b.is_zero() {
        let r = &a % &b;
        a = b;
        b = r;
    }
    a
}

#[derive(Clone, PartialEq, Eq)]
struct Q {
    n: BigInt,
    d: BigInt,
}

impl Q {
    fn whole(n: i64) -> Q {
        Q {
            n: BigInt::from(n),
            d: BigInt::one(),
        }
    }
    fn norm(mut n: BigInt, mut d: BigInt) -> Q {
        assert!(!d.is_zero());
        if d.is_negative() {
            n = -n;
            d = -d;
        }
        let g = gcd_big(&n, &d);
        if !g.is_zero() && !g.is_one() {
            n /= &g;
            d /= g;
        }
        if n.is_zero() {
            d = BigInt::one();
        }
        Q { n, d }
    }
    fn is_zero(&self) -> bool {
        self.n.is_zero()
    }
    fn sub_mul(&self, f: &Q, o: &Q) -> Q {
        Q::norm(
            &self.n * &f.d * &o.d - &f.n * &o.n * &self.d,
            &self.d * &f.d * &o.d,
        )
    }
    fn div(&self, o: &Q) -> Q {
        Q::norm(&self.n * &o.d, &self.d * &o.n)
    }
}

struct ExactNullspace {
    rank: usize,
    pivot_cols: Vec<u32>,
    basis: Vec<Vec<(u32, BigInt)>>,
}

fn exact_nullspace(rows: usize, cols: usize, entries: &[(u32, u32, i64)]) -> ExactNullspace {
    let mut a: Vec<Vec<Q>> = vec![vec![Q::whole(0); cols]; rows];
    for &(r, c, w) in entries {
        let cell = &a[r as usize][c as usize];
        a[r as usize][c as usize] = Q::norm(
            &cell.n * BigInt::one() + BigInt::from(w) * &cell.d,
            cell.d.clone(),
        );
    }
    let mut pivot_cols: Vec<u32> = Vec::new();
    let mut row = 0usize;
    for col in 0..cols {
        let Some(pr) = (row..rows).find(|&r| !a[r][col].is_zero()) else {
            continue;
        };
        a.swap(row, pr);
        let inv = a[row][col].clone();
        for x in &mut a[row] {
            *x = x.div(&inv);
        }
        for r in 0..rows {
            if r != row && !a[r][col].is_zero() {
                let f = a[r][col].clone();
                let pivot_row = a[row].clone();
                for (c, cell) in a[r].iter_mut().enumerate() {
                    *cell = cell.sub_mul(&f, &pivot_row[c]);
                }
            }
        }
        pivot_cols.push(col as u32);
        row += 1;
        if row == rows {
            break;
        }
    }
    let rank = pivot_cols.len();
    let mut is_pivot = vec![false; cols];
    for &c in &pivot_cols {
        is_pivot[c as usize] = true;
    }
    let mut basis = Vec::new();
    for f in 0..cols {
        if is_pivot[f] {
            continue;
        }
        let mut ent: Vec<(u32, Q)> = Vec::new();
        for (j, &pc) in pivot_cols.iter().enumerate() {
            if !a[j][f].is_zero() {
                ent.push((pc, Q::norm(-a[j][f].n.clone(), a[j][f].d.clone())));
            }
        }
        ent.push((f as u32, Q::whole(1)));
        ent.sort_by_key(|&(c, _)| c);
        let mut l = BigInt::one();
        for (_, q) in &ent {
            let g = gcd_big(&l, &q.d);
            l = &l / g * &q.d;
        }
        let mut iv: Vec<(u32, BigInt)> =
            ent.iter().map(|(c, q)| (*c, &q.n * (&l / &q.d))).collect();
        let mut g = BigInt::zero();
        for (_, v) in &iv {
            g = gcd_big(&g, v);
        }
        if !g.is_zero() && !g.is_one() {
            for (_, v) in &mut iv {
                *v = &*v / &g;
            }
        }
        if let Some((_, first)) = iv.iter().find(|(_, v)| !v.is_zero()) {
            if first.is_negative() {
                for (_, v) in &mut iv {
                    *v = -&*v;
                }
            }
        }
        basis.push(iv);
    }
    ExactNullspace {
        rank,
        pivot_cols,
        basis,
    }
}

#[derive(Clone, Debug)]
struct Mat {
    rows: usize,
    cols: usize,
    entries: Vec<(u32, u32, i64)>,
}

struct Draw(u64);

impl Draw {
    fn word(&mut self) -> u64 {
        self.0 ^= self.0 << 13;
        self.0 ^= self.0 >> 7;
        self.0 ^= self.0 << 17;
        self.0
    }

    fn below(&mut self, n: u64) -> u64 {
        self.word() % n
    }

    fn span(&mut self, lo: i64, hi: i64) -> i64 {
        lo + self.below((hi - lo) as u64) as i64
    }

    /// A sparse matrix of low rank with a little noise.
    fn mat(&mut self) -> Mat {
        let m = 1 + self.below(6) as usize;
        let n = 1 + self.below(6) as usize;
        let mut entries: Vec<(u32, u32, i64)> = Vec::new();
        for _ in 0..self.below(10) {
            let r = self.below(m as u64) as u32;
            let c = self.below(n as u64) as u32;
            let w = self.span(-5, 6);
            entries.push((r, c, w));
        }
        for _ in 0..self.below(3) {
            let u: Vec<i64> = (0..m).map(|_| self.span(-3, 4)).collect();
            let v: Vec<i64> = (0..n).map(|_| self.span(-3, 4)).collect();
            for (r, &ur) in u.iter().enumerate() {
                for (c, &vc) in v.iter().enumerate() {
                    if ur * vc != 0 {
                        entries.push((r as u32, c as u32, ur * vc));
                    }
                }
            }
        }
        Mat {
            rows: m,
            cols: n,
            entries,
        }
    }
}

fn tp(m: &Mat) -> Triplets<'_> {
    Triplets {
        rows: m.rows,
        cols: m.cols,
        entries: &m.entries,
    }
}

/// The selected rows alone reproduce the rank.
fn witness_valid(m: &Mat, ns: &ModpNullspace) {
    let keep: std::collections::HashSet<u32> = ns.witness_rows.iter().copied().collect();
    assert_eq!(keep.len(), ns.rank, "witness rows distinct");
    let sub: Vec<(u32, u32, i64)> = m
        .entries
        .iter()
        .filter(|(r, _, _)| keep.contains(r))
        .map(|&(r, c, w)| (r, c, w))
        .collect();
    let sub_ns = reference::nullspace_mod_p(
        Triplets {
            rows: m.rows,
            cols: m.cols,
            entries: &sub,
        },
        ns.prime,
    )
    .unwrap();
    assert_eq!(sub_ns.rank, ns.rank, "witness rows reproduce the rank");
}

#[test]
fn sparse_conforms_to_reference() {
    let mut d = Draw(0x51ed_270b_9f2c_7a11);
    for _ in 0..200 {
        let m = d.mat();
        for p in [PRIMES[0], PRIMES[7], 3u64, 5u64] {
            let r = reference::nullspace_mod_p(tp(&m), p).unwrap();
            let s = sparse::nullspace_mod_p(tp(&m), p, sparse::Params::default()).unwrap();
            assert_eq!(r.rank, s.rank);
            assert_eq!(&r.pivot_cols, &s.pivot_cols);
            assert_eq!(&r.basis, &s.basis);
            witness_valid(&m, &r);
            witness_valid(&m, &s);
        }
    }
}

#[test]
fn dense_core_conforms() {
    let mut d = Draw(0x77aa_0190_3344_1177);
    for _ in 0..200 {
        let m = d.mat();
        let p = PRIMES[3];
        let forced = sparse::Params {
            max_entries: 1 << 22,
            dense_cap: 1 << 20,
            dense_inv_density: usize::MAX,
        };
        let a = sparse::nullspace_mod_p(tp(&m), p, sparse::Params::default()).unwrap();
        let b = sparse::nullspace_mod_p(tp(&m), p, forced).unwrap();
        assert_eq!(a.rank, b.rank);
        assert_eq!(&a.pivot_cols, &b.pivot_cols);
        assert_eq!(&a.basis, &b.basis);
        witness_valid(&m, &b);
    }
}

#[test]
fn lift_matches_exact_partner() {
    let mut d = Draw(0x0f0f_5a5a_1234_8765);
    for _ in 0..200 {
        let m = d.mat();
        let exact = exact_nullspace(m.rows, m.cols, &m.entries);
        let n1 = sparse::nullspace_mod_p(tp(&m), PRIMES[0], sparse::Params::default()).unwrap();
        let n2 = sparse::nullspace_mod_p(tp(&m), PRIMES[1], sparse::Params::default()).unwrap();
        assert_eq!(n1.rank, exact.rank);
        assert_eq!(&n1.pivot_cols, &exact.pivot_cols);
        let lifted = lift::crt2_ratrec(&n1, &n2).unwrap();
        assert_eq!(lifted.len(), exact.basis.len());
        for (lv, ev) in lifted.iter().zip(&exact.basis) {
            let lv_big: Vec<(u32, BigInt)> =
                lv.iter().map(|&(c, v)| (c, BigInt::from(v))).collect();
            assert_eq!(&lv_big, ev);
        }
    }
}

#[test]
fn lifted_vectors_verify_and_mutants_fail() {
    let mut d = Draw(0x2545_f491_4f6c_dd1d);
    for _ in 0..200 {
        let m = d.mat();
        let n1 = sparse::nullspace_mod_p(tp(&m), PRIMES[0], sparse::Params::default()).unwrap();
        let n2 = sparse::nullspace_mod_p(tp(&m), PRIMES[1], sparse::Params::default()).unwrap();
        let lifted = lift::crt2_ratrec(&n1, &n2).unwrap();
        let mut col_nonzero = vec![false; m.cols];
        let mut acc = std::collections::HashMap::<(u32, u32), i64>::new();
        for &(r, c, w) in &m.entries {
            *acc.entry((r, c)).or_insert(0) += w;
        }
        for ((_, c), w) in acc {
            if w != 0 {
                col_nonzero[c as usize] = true;
            }
        }
        for y in &lifted {
            assert_eq!(check_nullvector(tp(&m), y), Ok(None));
            if let Some(k) = y.iter().position(|&(c, _)| col_nonzero[c as usize]) {
                let mut mutant = y.clone();
                mutant[k].1 += 1;
                let mutant: Vec<(u32, i128)> =
                    mutant.into_iter().filter(|&(_, v)| v != 0).collect();
                let verdict = check_nullvector(tp(&m), &mutant).unwrap();
                assert!(verdict.is_some(), "mutant must violate some row");
            }
        }
    }
}

#[test]
fn fill_budget_refusal_is_typed() {
    let e = [(0u32, 0u32, 1i64), (0, 1, 1), (1, 0, 1), (1, 1, 2)];
    let out = sparse::nullspace_mod_p(
        Triplets {
            rows: 2,
            cols: 2,
            entries: &e,
        },
        PRIMES[0],
        sparse::Params {
            max_entries: 1,
            dense_cap: 0,
            dense_inv_density: 8,
        },
    );
    assert!(matches!(
        out,
        Err(maitria_kernels::nullspace::NullspaceError::FillBudget { .. })
    ));
}

#[test]
fn profile_mismatch_between_unlucky_primes_is_typed() {
    let e = [(0u32, 0u32, 3i64)];
    let t = Triplets {
        rows: 1,
        cols: 1,
        entries: &e,
    };
    let n3 = reference::nullspace_mod_p(t, 3).unwrap();
    let n5 = reference::nullspace_mod_p(t, 5).unwrap();
    assert_eq!(n3.rank, 0);
    assert_eq!(n5.rank, 1);
    assert!(matches!(
        lift::crt2_ratrec(&n3, &n5),
        Err(lift::LiftError::ProfileMismatch { .. })
    ));
}

#[test]
fn lift_capacity_refusal_is_typed() {
    let a1 = (1i64 << 62) + 1;
    let a2 = (1i64 << 62) - 1;
    let a3 = (1i64 << 62) + 3;
    let e = [
        (0u32, 0u32, a1),
        (0, 3, 1),
        (1, 1, a2),
        (1, 3, 1),
        (2, 2, a3),
        (2, 3, 1),
    ];
    let t = Triplets {
        rows: 3,
        cols: 4,
        entries: &e,
    };
    let n1 = sparse::nullspace_mod_p(t, PRIMES[0], sparse::Params::default()).unwrap();
    let n2 = sparse::nullspace_mod_p(t, PRIMES[1], sparse::Params::default()).unwrap();
    assert!(matches!(
        lift::crt2_ratrec(&n1, &n2),
        Err(lift::LiftError::Capacity { .. })
    ));
}

#[test]
fn empty_and_zero_shapes() {
    let t = Triplets {
        rows: 0,
        cols: 3,
        entries: &[],
    };
    for ns in [
        reference::nullspace_mod_p(t, PRIMES[0]).unwrap(),
        sparse::nullspace_mod_p(t, PRIMES[0], sparse::Params::default()).unwrap(),
    ] {
        assert_eq!(ns.rank, 0);
        assert_eq!(ns.basis.len(), 3);
    }
    let e = [(0u32, 0u32, 5i64), (0, 0, -5)];
    let t = Triplets {
        rows: 1,
        cols: 1,
        entries: &e,
    };
    let ns = sparse::nullspace_mod_p(t, PRIMES[0], sparse::Params::default()).unwrap();
    assert_eq!(ns.rank, 0);
    assert_eq!(ns.basis.len(), 1);
}

#[test]
fn determinism() {
    let e = [
        (0u32, 0u32, 1i64),
        (0, 2, -1),
        (1, 1, 2),
        (1, 2, 2),
        (2, 0, 1),
        (2, 1, 1),
    ];
    let t = Triplets {
        rows: 3,
        cols: 3,
        entries: &e,
    };
    let a = sparse::nullspace_mod_p(t, PRIMES[0], sparse::Params::default()).unwrap();
    let b = sparse::nullspace_mod_p(t, PRIMES[0], sparse::Params::default()).unwrap();
    assert_eq!(a, b);
}

#[test]
fn triplets_validation() {
    let e = [(0u32, 0u32, 1i64)];
    assert!(Triplets {
        rows: 1,
        cols: 1,
        entries: &e
    }
    .validate()
    .is_ok());
    assert!(matches!(
        Triplets {
            rows: 1,
            cols: 1,
            entries: &[(1, 0, 1)]
        }
        .validate(),
        Err(NullspaceError::IndexOutOfRange { .. })
    ));
}

#[test]
fn prime_gate() {
    assert!(prime_ok(3));
    assert!(prime_ok(9223372036854775783));
    assert!(!prime_ok(2));
    assert!(!prime_ok(1u64 << 63));
    assert!(!prime_ok(9223372036854775784));
}

#[test]
fn identity_has_trivial_nullspace() {
    let e = [(0u32, 0u32, 1i64), (1, 1, 1)];
    let ns = reference::nullspace_mod_p(
        Triplets {
            rows: 2,
            cols: 2,
            entries: &e,
        },
        9223372036854775783,
    )
    .unwrap();
    assert_eq!(ns.rank, 2);
    assert!(ns.basis.is_empty());
}

#[test]
fn zero_matrix_yields_identity_basis() {
    let ns = reference::nullspace_mod_p(
        Triplets {
            rows: 3,
            cols: 4,
            entries: &[],
        },
        9223372036854775783,
    )
    .unwrap();
    assert_eq!(ns.rank, 0);
    assert_eq!(ns.basis.len(), 4);
    for (k, v) in ns.basis.iter().enumerate() {
        assert_eq!(v.idx, vec![k as u32]);
        assert_eq!(v.val, vec![1]);
    }
}

#[test]
fn kernel_vector_of_sum_row() {
    let p = 9223372036854775783u64;
    let e = [(0u32, 0u32, 1i64), (0, 1, 1)];
    let ns = reference::nullspace_mod_p(
        Triplets {
            rows: 1,
            cols: 2,
            entries: &e,
        },
        p,
    )
    .unwrap();
    assert_eq!(ns.rank, 1);
    assert_eq!(ns.pivot_cols, vec![0]);
    assert_eq!(ns.basis.len(), 1);
    assert_eq!(ns.basis[0].idx, vec![0, 1]);
    assert_eq!(ns.basis[0].val, vec![p - 1, 1]);
    assert_eq!(ns.free_col(0), 1);
}

#[test]
fn isqrt_matches_squares() {
    for v in [0u128, 1, 2, 3, 4, 8, 9, 15, 16, 1 << 63, (1 << 63) + 1] {
        let s = isqrt_u128(v);
        assert!(s * s <= v);
        assert!((s + 1).checked_mul(s + 1).map_or(true, |sq| sq > v));
    }
}

fn mulmod_u128(a: u128, b: u128, m: u128) -> u128 {
    let mut acc = 0u128;
    let mut a = a % m;
    let mut b = b;
    while b > 0 {
        if b & 1 == 1 {
            acc = (acc + a) % m;
        }
        a = (a + a) % m;
        b >>= 1;
    }
    acc
}

fn modinv_u128(a: u128, m: u128) -> Option<u128> {
    let (mut r0, mut r1) = (m as i128, a as i128);
    let (mut t0, mut t1) = (0i128, 1i128);
    while r1 != 0 {
        let q = r0 / r1;
        (r0, r1) = (r1, r0 - q * r1);
        (t0, t1) = (t1, t0 - q * t1);
    }
    if r0 != 1 {
        return None;
    }
    Some(t0.rem_euclid(m as i128) as u128)
}

#[test]
fn ratrec_recovers_small_fractions() {
    let m: u128 = 1000003u128 * 999983;
    let bound = isqrt_u128(m / 2);
    for (n, d) in [(1i128, 1u128), (-3, 7), (22, 5), (-1000, 999)] {
        let dinv = modinv_u128(d % m, m).unwrap();
        let nm = if n >= 0 {
            n as u128 % m
        } else {
            (m - (n.unsigned_abs() % m)) % m
        };
        let x = mulmod_u128(nm, dinv, m);
        let (rn, rd) = ratrec(x, m, bound).unwrap();
        assert_eq!((rn, rd), (n, d));
    }
}

#[test]
fn accepts_true_nullvector_and_rejects_mutant() {
    let e = [(0u32, 0u32, 1i64), (0, 1, 1), (1, 0, 2), (1, 1, 2)];
    let a = Triplets {
        rows: 2,
        cols: 2,
        entries: &e,
    };
    assert_eq!(check_nullvector(a, &[(0, 1), (1, -1)]), Ok(None));
    assert_eq!(check_nullvector(a, &[(0, 1), (1, 1)]), Ok(Some(0)));
}

#[test]
fn isqrt_reaches_the_ends() {
    assert_eq!(isqrt_u128(u128::MAX), (1u128 << 64) - 1);
    assert_eq!(isqrt_u128(((1u128 << 64) - 1) * ((1u128 << 64) - 1)), (1u128 << 64) - 1);
    assert_eq!(isqrt_u128(99), 9);
    assert_eq!(isqrt_u128(100), 10);
}

#[test]
fn ratrec_refuses_what_has_no_small_fraction() {
    // Modulo 101 with parts of at most 7, the residue 10 has no fraction: 10 = n / d would
    // make 10 d - n a multiple of 101.
    assert_eq!(isqrt_u128(50), 7);
    assert_eq!(ratrec(10, 101, 2), None);
    assert_eq!(ratrec(0, 101, 7), Some((0, 1)));
    // 51 is one half modulo 101.
    assert_eq!(ratrec(51, 101, 7), Some((1, 2)));
}

#[test]
fn gcd_of_double_words() {
    assert_eq!(gcd_u128(0, 0), 0);
    assert_eq!(gcd_u128(0, 7), 7);
    assert_eq!(gcd_u128(84, 36), 12);
    assert_eq!(gcd_u128(u128::MAX, u128::MAX - 1), 1);
}

#[test]
fn residue_arithmetic() {
    let p = PRIMES[0];
    assert_eq!(arith::addmod(p - 1, p - 1, p), p - 2);
    assert_eq!(arith::submod(0, 1, p), p - 1);
    assert_eq!(arith::mulmod(p - 1, p - 1, p), 1);
    assert_eq!(arith::residue(-1, p), p - 1);
    assert_eq!(arith::residue(i64::MIN, 5), 2);
    for a in [1u64, 2, 12345, p - 1] {
        assert_eq!(arith::mulmod(a, arith::invmod(a, p), p), 1);
    }
}

#[test]
fn clearing_gives_primitive_integers() {
    // (1/2, -1/3, 5/6) clears to (3, -2, 5).
    let rat = vec![(0u32, 1i128, 2u128), (4, -1, 3), (9, 5, 6)];
    assert_eq!(clear_to_primitive(0, &rat), Ok(vec![(0, 3), (4, -2), (9, 5)]));
    // The first entry is made positive.
    let rat = vec![(2u32, -4i128, 1u128), (3, 6, 1)];
    assert_eq!(clear_to_primitive(0, &rat), Ok(vec![(2, 2), (3, -3)]));
    // Zeros before it do not count.
    let rat = vec![(1u32, 0i128, 1u128), (2, -4, 2), (3, 6, 1)];
    assert_eq!(clear_to_primitive(0, &rat), Ok(vec![(1, 0), (2, 1), (3, -3)]));
    assert_eq!(clear_to_primitive(0, &vec![(1, 0, 3)]), Ok(vec![(1, 0)]));
    // A common denominator beyond a double word is refused, and named.
    let big = (1u128 << 100) + 1;
    let rat = vec![(0u32, 1i128, big), (7, 1, big + 2)];
    assert!(matches!(
        clear_to_primitive(3, &rat),
        Err(lift::LiftError::Capacity { vector: 3, .. })
    ));
}

#[test]
fn wide_shapes_are_refused_for_what_is_wrong() {
    let e = [(0u32, 0u32, 1i64)];
    let wide = Triplets { rows: 1, cols: 1 << 40, entries: &e };
    assert_eq!(
        reference::nullspace_mod_p(wide, 4),
        Err(NullspaceError::BadPrime { prime: 4 })
    );
    assert_eq!(
        reference::nullspace_mod_p(wide, PRIMES[0]),
        Err(NullspaceError::DenseGuard { rows: 1, cols: 1 << 40 })
    );
    assert_eq!(
        sparse::nullspace_mod_p(wide, 4, sparse::Params::default()),
        Err(NullspaceError::BadPrime { prime: 4 })
    );
    let e = [(3u32, 0u32, 1i64)];
    let wide = Triplets { rows: 1, cols: 1 << 40, entries: &e };
    let out = NullspaceError::IndexOutOfRange { row: 3, col: 0, rows: 1, cols: 1 << 40 };
    assert_eq!(reference::nullspace_mod_p(wide, PRIMES[0]), Err(out));
    assert_eq!(
        sparse::nullspace_mod_p(wide, PRIMES[0], sparse::Params::default()),
        Err(out)
    );
}

#[test]
fn lifted_vectors_are_multiples_of_both_bases() {
    let e = [(0u32, 0u32, 6i64), (0, 1, 10), (0, 3, 15), (1, 2, 4), (1, 3, -7)];
    let t = Triplets { rows: 2, cols: 4, entries: &e };
    let a = reference::nullspace_mod_p(t, PRIMES[0]).unwrap();
    let b = reference::nullspace_mod_p(t, PRIMES[1]).unwrap();
    let out = lift::crt2_ratrec(&a, &b).unwrap();
    assert_eq!(out.len(), a.basis.len());
    for (k, v) in out.iter().enumerate() {
        assert!(v.windows(2).all(|w| w[0].0 < w[1].0));
        assert!(v.iter().all(|x| x.1 != 0) && v[0].1 > 0);
        assert_eq!(v.iter().fold(0, |g, x| gcd_u128(g, x.1.unsigned_abs())), 1);
        let at = |c: u32| v.iter().find(|x| x.0 == c).map_or(0, |x| x.1);
        for ns in [&a, &b] {
            let p = ns.prime as i128;
            for c in 0..4u32 {
                let i = ns.basis[k].idx.iter().position(|&x| x == c);
                let r = i.map_or(0, |i| ns.basis[k].val[i] as i128);
                let f = at(ns.free_col(k));
                assert_eq!((at(c) - f * r).rem_euclid(p), 0);
            }
        }
    }
}

#[test]
fn sum_row_lifts_at_small_primes() {
    let e = [(0u32, 0u32, 1i64), (0, 1, 1)];
    let t = Triplets { rows: 1, cols: 2, entries: &e };
    let a = reference::nullspace_mod_p(t, 3).unwrap();
    let b = reference::nullspace_mod_p(t, 5).unwrap();
    assert_eq!(lift::crt2_ratrec(&a, &b), Ok(vec![vec![(0, 1), (1, -1)]]));
    // Equal primes come first, then profiles that disagree.
    let c = reference::nullspace_mod_p(Triplets { rows: 1, cols: 2, entries: &[] }, 5).unwrap();
    assert_eq!(
        lift::crt2_ratrec(&a, &c),
        Err(lift::LiftError::ProfileMismatch { rank_a: 1, rank_b: 0 })
    );
    assert_eq!(
        lift::crt2_ratrec(&b, &c),
        Err(lift::LiftError::SamePrime { prime: 5 })
    );
}

#[test]
fn lift_refuses_one_prime_twice() {
    let e = [(0u32, 0u32, 2i64), (0, 1, 3)];
    let t = Triplets {
        rows: 1,
        cols: 2,
        entries: &e,
    };
    let n = reference::nullspace_mod_p(t, PRIMES[0]).unwrap();
    assert_eq!(
        lift::crt2_ratrec(&n, &n),
        Err(lift::LiftError::SamePrime { prime: PRIMES[0] })
    );
    let k = reference::nullspace_mod_p(t, PRIMES[1]).unwrap();
    assert_eq!(lift::crt2_ratrec(&n, &k), Ok(vec![vec![(0, 3), (1, -2)]]));
}

#[test]
fn union_of_residues_keeps_the_order() {
    let a = SparseVec { idx: vec![0, 3, 5], val: vec![1, 2, 3] };
    let b = SparseVec { idx: vec![3, 4], val: vec![7, 8] };
    assert_eq!(
        lift::union_residues(&a, &b),
        vec![(0, 1, 0), (3, 2, 7), (4, 0, 8), (5, 3, 0)]
    );
}

#[test]
fn lanes_refuse_bad_primes_and_entries() {
    let e = [(0u32, 0u32, 1i64), (0, 4, 1)];
    let t = Triplets {
        rows: 1,
        cols: 2,
        entries: &e,
    };
    for out in [
        reference::nullspace_mod_p(t, 4),
        sparse::nullspace_mod_p(t, 4, sparse::Params::default()),
    ] {
        assert_eq!(out, Err(NullspaceError::BadPrime { prime: 4 }));
    }
    for out in [
        reference::nullspace_mod_p(t, 7),
        sparse::nullspace_mod_p(t, 7, sparse::Params::default()),
    ] {
        assert_eq!(
            out,
            Err(NullspaceError::IndexOutOfRange {
                row: 0,
                col: 4,
                rows: 1,
                cols: 2
            })
        );
    }
}

#[test]
fn dense_lane_refuses_large_shapes() {
    let t = Triplets {
        rows: 1 << 20,
        cols: 1 << 20,
        entries: &[],
    };
    assert_eq!(
        reference::nullspace_mod_p(t, PRIMES[0]),
        Err(NullspaceError::DenseGuard {
            rows: 1 << 20,
            cols: 1 << 20
        })
    );
}

#[test]
fn verification_overflow_is_named() {
    let e = [(2u32, 1u32, i64::MAX), (2, 1, i64::MAX)];
    let t = Triplets {
        rows: 3,
        cols: 2,
        entries: &e,
    };
    assert_eq!(
        check_nullvector(t, &[(1, i128::MAX)]),
        Err(VerifyOverflow { row: 2, col: 1 })
    );
}

#[test]
fn columns_are_found() {
    let cols = vec![1u32, 4, 9];
    assert_eq!(nullspace::find_col(&cols, 4), Some(1));
    assert_eq!(nullspace::find_col(&cols, 5), None);
}

/// The sparse lane without a dense core, under a budget.
fn under_budget(
    rows: usize,
    cols: usize,
    entries: &[(u32, u32, i64)],
    max_entries: usize,
) -> Result<maitria_kernels::nullspace::ModpNullspace, NullspaceError> {
    let params = sparse::Params {
        max_entries,
        dense_cap: 0,
        dense_inv_density: 0,
    };
    sparse::nullspace_mod_p(Triplets { rows, cols, entries }, 101, params)
}

#[test]
fn gathering_over_budget_names_the_entries() {
    let e = [(0, 0, 1), (0, 1, 1), (0, 2, 1)];
    assert_eq!(
        under_budget(1, 3, &e, 2),
        Err(NullspaceError::FillBudget {
            live_entries: 3,
            max_entries: 2,
            pivots_done: 0,
            phase: 1
        })
    );
    assert!(under_budget(1, 3, &e, 3).is_ok());
    // A repeated row and a row that vanishes modulo the prime are not stored.
    let e = [(0, 0, 1), (0, 1, 1), (1, 0, 102), (1, 1, 1), (2, 1, 101)];
    assert!(under_budget(3, 2, &e, 2).is_ok());
}

#[test]
fn fill_in_the_first_phase_is_metered() {
    // The first row is pivoted on column 0, which the second row holds.
    let e = [
        (0, 0, 1),
        (0, 1, 1),
        (0, 6, 1),
        (1, 0, 1),
        (1, 2, 1),
        (1, 3, 1),
        (2, 1, 1),
        (2, 4, 1),
        (2, 6, 1),
    ];
    assert_eq!(
        under_budget(3, 7, &e, 9),
        Err(NullspaceError::FillBudget {
            live_entries: 10,
            max_entries: 9,
            pivots_done: 0,
            phase: 1
        })
    );
}

#[test]
fn fill_in_the_second_phase_is_metered() {
    // The first phase takes private columns; the second starts at the shared one.
    let e = [
        (0, 0, 1),
        (0, 1, 1),
        (0, 4, 1),
        (1, 0, 1),
        (1, 2, 1),
        (1, 3, 1),
    ];
    assert_eq!(
        under_budget(2, 5, &e, 6),
        Err(NullspaceError::FillBudget {
            live_entries: 7,
            max_entries: 6,
            pivots_done: 0,
            phase: 2
        })
    );
    let ns = under_budget(2, 5, &e, 7).unwrap();
    assert_eq!(ns.rank, 2);
    assert_eq!(ns.witness_rows, vec![0, 1]);
}

#[test]
fn pivots_take_the_lowest_row() {
    // Row 2 gives the first column; of rows 0 and 1, both open at the second one.
    let e = [(0u32, 1u32, 1i64), (1, 1, 1), (1, 2, 1), (2, 0, 1)];
    let a = Triplets { rows: 3, cols: 3, entries: &e };
    let ns = nullspace::reference::nullspace_mod_p(a, PRIMES[0]).unwrap();
    assert_eq!(ns.pivot_cols, vec![0, 1, 2]);
    assert_eq!(ns.witness_rows, vec![2, 0, 1]);
    // A row that repeats an earlier one is passed over.
    let e = [(0u32, 0u32, 1i64), (1, 0, 2), (2, 0, 1), (2, 1, 1), (3, 1, 5)];
    let a = Triplets { rows: 4, cols: 3, entries: &e };
    let ns = nullspace::reference::nullspace_mod_p(a, PRIMES[0]).unwrap();
    assert_eq!(ns.pivot_cols, vec![0, 1]);
    assert_eq!(ns.witness_rows, vec![0, 2]);
}

#[test]
fn lift_recovers_the_primitive_vector() {
    // 2 x + 3 y + 5 z = 0: the free columns are y and z.
    let e = [(0, 0, 2), (0, 1, 3), (0, 2, 5)];
    let a = Triplets { rows: 1, cols: 3, entries: &e };
    let n1 = reference::nullspace_mod_p(a, 10007).unwrap();
    let n2 = reference::nullspace_mod_p(a, 10009).unwrap();
    assert_eq!(
        lift::crt2_ratrec(&n1, &n2),
        Ok(vec![vec![(0, 3), (1, -2)], vec![(0, 5), (2, -2)]])
    );
}

#[test]
fn refusals_have_texts() {
    assert_eq!(
        NullspaceError::BadPrime { prime: 4 }.text(),
        "prime 4 is not an odd prime below 2^63"
    );
    assert_eq!(
        NullspaceError::IndexOutOfRange { row: 7, col: 0, rows: 3, cols: 12 }.text(),
        "triplet (7, 0) outside declared shape 3x12"
    );
    assert_eq!(
        NullspaceError::FillBudget { live_entries: 10, max_entries: 9, pivots_done: 2, phase: 1 }
            .text(),
        "fill budget exceeded in phase 1: 10 live entries > 9 after 2 pivots"
    );
    assert_eq!(
        NullspaceError::DenseGuard { rows: 100000, cols: 5 }.text(),
        "dense reference guard: 100000x5 too large"
    );
    assert_eq!(
        lift::LiftError::SamePrime { prime: 7 }.text(),
        "both bundles use prime 7"
    );
    assert_eq!(
        lift::LiftError::ProfileMismatch { rank_a: 1, rank_b: 2 }.text(),
        "rank profiles disagree (1 vs 2): unlucky prime"
    );
    assert_eq!(
        lift::LiftError::Capacity { vector: 3, coord: 40 }.text(),
        "vector 3, coordinate 40: outside two-channel capacity"
    );
    assert_eq!(
        VerifyOverflow { row: 5, col: 6 }.text(),
        "i128 overflow accumulating row 5 into column 6"
    );
}
