//! `roweq` against membership by hashed row keys.

use maitria_kernels::cuda::host::BLOCK_1D;
use maitria_kernels::cuda::roweq as device;
use maitria_kernels::cuda::GpuError;
use maitria_kernels::roweq::batch::{RowEqBatch, RowEqError};
use maitria_kernels::roweq::reference;
use std::collections::HashSet;

type Val = (i8, Vec<u64>, u32);
type Row = Vec<(u32, Val)>;

#[derive(Debug, Clone)]
struct Attempt {
    queries: Vec<Row>,
    pool: Vec<Row>,
}

fn trim(mut limbs: Vec<u64>) -> Vec<u64> {
    while limbs.last() == Some(&0) {
        limbs.pop();
    }
    limbs
}

fn build(attempts: &[Attempt], extra_pad: usize) -> RowEqBatch {
    let mut b = RowEqBatch::default();
    let mut k = 0usize;
    for a in attempts {
        for r in a.queries.iter().chain(&a.pool) {
            for (_, (_, m, _)) in r {
                k = k.max(trim(m.clone()).len());
            }
        }
    }
    let k = k + extra_pad;
    b.k = k;
    b.arow_ptr.push(0);
    b.row_ptr.push(0);
    let mut slots: Vec<Val> = Vec::new();
    for a in attempts {
        for r in a.queries.iter().chain(&a.pool) {
            for (col, v) in r {
                b.nnz_col.push(*col);
                b.nnz_slot.push(slots.len() as u32);
                slots.push(v.clone());
            }
            b.row_ptr.push(b.nnz_col.len() as u32);
        }
        b.split
            .push(b.arow_ptr.last().unwrap() + a.queries.len() as u32);
        b.arow_ptr
            .push(b.arow_ptr.last().unwrap() + (a.queries.len() + a.pool.len()) as u32);
    }
    b.n_slots = slots.len();
    b.mag = vec![0u64; k * slots.len()];
    for (s, (sg, m, d)) in slots.iter().enumerate() {
        let t = trim(m.clone());
        b.sign.push(if t.is_empty() { 0 } else { *sg });
        b.den_id.push(*d);
        for (l, limb) in t.iter().enumerate() {
            b.mag[l * slots.len() + s] = *limb;
        }
    }
    b
}

fn row_key(r: &Row) -> Vec<u8> {
    let mut out = Vec::new();
    for (col, (sg, m, d)) in r {
        let t = trim(m.clone());
        out.extend(col.to_le_bytes());
        out.push((if t.is_empty() { 0i8 } else { *sg }) as u8);
        out.extend(d.to_le_bytes());
        out.extend((t.len() as u32).to_le_bytes());
        for l in &t {
            out.extend(l.to_le_bytes());
        }
    }
    out
}

fn membership_hashset(attempts: &[Attempt]) -> Vec<bool> {
    attempts
        .iter()
        .map(|a| {
            let pool: HashSet<Vec<u8>> = a.pool.iter().map(row_key).collect();
            a.queries.iter().all(|q| pool.contains(&row_key(q)))
        })
        .collect()
}

/// What the kernel is meant to report for the queries of a batch.
fn matches_of(attempts: &[Attempt]) -> Vec<u32> {
    let mut out = Vec::new();
    for a in attempts {
        for q in &a.queries {
            out.push(a.pool.iter().any(|r| row_key(r) == row_key(q)) as u32);
        }
    }
    out
}

fn check(attempts: &[Attempt]) {
    let want = membership_hashset(attempts);
    for pad in [0usize, 2] {
        let b = build(attempts, pad);
        let out = reference::verify(&b).expect("valid descriptor");
        assert_eq!(out.member_ok, want, "reference vs hash partner (pad={pad})");
        let got = match device::prepare(&b).unwrap() {
            device::RowEqStep::Done(out) => out,
            device::RowEqStep::Launch(l) => device::finish(&l, &matches_of(attempts)),
        };
        assert_eq!(got.member_ok, want, "device lane vs hash partner (pad={pad})");
    }
}

struct Draw(u64);

impl Draw {
    fn word(&mut self) -> u64 {
        self.0 ^= self.0 << 13;
        self.0 ^= self.0 >> 7;
        self.0 ^= self.0 << 17;
        self.0
    }

    fn below(&mut self, n: u64) -> u64 {
        self.word() % n
    }

    fn val(&mut self) -> Val {
        let s = if self.below(2) == 0 { -1 } else { 1 };
        let n = self.below(4);
        let m: Vec<u64> = (0..n).map(|_| self.word()).collect();
        (s, m, self.below(5) as u32)
    }

    fn row(&mut self) -> Row {
        let mut v: Row = Vec::new();
        for _ in 0..self.below(6) {
            let c = self.below(12) as u32;
            v.push((c, self.val()));
        }
        v.sort_by_key(|(c, _)| *c);
        v.dedup_by_key(|(c, _)| *c);
        v
    }

    fn attempt(&mut self) -> Attempt {
        let nq = self.below(5);
        let queries: Vec<Row> = (0..nq).map(|_| self.row()).collect();
        let np = self.below(6);
        let mut pool: Vec<Row> = (0..np).map(|_| self.row()).collect();
        if self.below(2) == 0 {
            for q in &queries {
                if self.below(4) > 0 {
                    pool.push(q.clone());
                }
            }
        }
        Attempt { queries, pool }
    }
}

#[test]
fn reference_matches_hash_partner() {
    let mut d = Draw(0xa54f_f53a_5f1d_36f1);
    for _ in 0..200 {
        let n = d.below(5);
        let atts: Vec<Attempt> = (0..n).map(|_| d.attempt()).collect();
        check(&atts);
    }
}

#[test]
fn accepts_and_mutants() {
    let mut d = Draw(0x510e_527f_ade6_82d1);
    for round in 0..200u64 {
        let n = 1 + d.below(3);
        let mut queries: Vec<Row> = (0..n).map(|_| d.row()).collect();
        if queries.iter().all(|q| q.is_empty()) {
            queries[0].push((3, (1, vec![7], 0)));
        }
        let mut pool = queries.clone();
        pool.push(d.row());
        let a = Attempt {
            queries: queries.clone(),
            pool,
        };
        let accept = build(std::slice::from_ref(&a), 0);
        let out = reference::verify(&accept).expect("valid");
        assert!(out.member_ok == vec![true], "a pool with the queries must accept");
        let nonempty: Vec<usize> =
            (0..queries.len()).filter(|i| !queries[*i].is_empty()).collect();
        let qi = nonempty[d.below(nonempty.len() as u64) as usize];
        let pos = d.below(queries[qi].len() as u64) as usize;
        let mut m = a.clone();
        match round % 6 {
            0 => m.queries[qi][pos].1 .0 = -m.queries[qi][pos].1 .0,
            1 => {
                let limbs = &mut m.queries[qi][pos].1 .1;
                if limbs.is_empty() {
                    limbs.push(1);
                } else {
                    limbs[0] ^= 1;
                }
            }
            2 => m.queries[qi][pos].1 .2 ^= 1,
            3 => m.queries[qi][pos].0 = m.queries[qi][pos].0.wrapping_add(100),
            4 => {
                m.queries[qi].remove(pos);
            }
            _ => {
                let key = row_key(&m.queries[qi]);
                if let Some(pi) = m.pool.iter().position(|r| row_key(r) == key) {
                    m.pool.remove(pi);
                }
            }
        }
        check(&[m]);
    }
}

#[test]
fn edges() {
    check(&[]);
    check(&[Attempt {
        queries: vec![],
        pool: vec![],
    }]);
    check(&[Attempt {
        queries: vec![vec![(0, (1, vec![3], 0))]],
        pool: vec![],
    }]);
    check(&[Attempt {
        queries: vec![vec![]],
        pool: vec![vec![]],
    }]);
    check(&[Attempt {
        queries: vec![vec![]],
        pool: vec![vec![(0, (1, vec![1], 0))]],
    }]);
    let r: Row = vec![(1, (-1, vec![9, 9], 2)), (4, (1, vec![], 0))];
    check(&[Attempt {
        queries: vec![r.clone()],
        pool: vec![r.clone(), r.clone(), r],
    }]);
    check(&[Attempt {
        queries: vec![vec![(0, (1, vec![5], 0))]],
        pool: vec![vec![(0, (1, vec![5], 1))]],
    }]);
    let long: Row = (0..6u32).map(|c| (c, (1i8, vec![0xAB; 3], 1u32))).collect();
    let mut long2 = long.clone();
    long2[5].1 .1[2] ^= 1;
    check(&[Attempt {
        queries: vec![long.clone()],
        pool: vec![long2, long],
    }]);
}

fn one_pair() -> RowEqBatch {
    build(
        &[Attempt {
            queries: vec![vec![(0, (1, vec![1], 0))]],
            pool: vec![vec![(0, (1, vec![1], 0))]],
        }],
        0,
    )
}

#[test]
fn zero_planes_change_no_verdict() {
    let b = one_pair();
    let out = reference::verify(&b).unwrap();
    for j in 1..4usize {
        let mut c = b.clone();
        c.k += j;
        c.mag.resize(c.k * c.n_slots, 0);
        assert_eq!(reference::verify(&c).unwrap(), out);
    }
}

#[test]
fn validation_refusals() {
    let mut b = build(
        &[Attempt {
            queries: vec![vec![]],
            pool: vec![vec![]],
        }],
        0,
    );
    b.split[0] = 7;
    assert_eq!(reference::verify(&b), Err(RowEqError::Split(0)));

    let mut b = one_pair();
    b.mag.fill(0);
    assert!(matches!(reference::verify(&b), Err(RowEqError::Sign(_))));

    let mut b = one_pair();
    b.nnz_slot[0] = 99;
    assert_eq!(reference::verify(&b), Err(RowEqError::Index("nnz_slot")));

    let mut b = build(
        &[Attempt {
            queries: vec![vec![(0, (1, vec![1], 0))], vec![]],
            pool: vec![vec![(0, (1, vec![1], 0))]],
        }],
        0,
    );
    b.row_ptr[1] = 2;
    assert!(matches!(
        reference::verify(&b),
        Err(RowEqError::Structure(_))
    ));
}

#[test]
fn every_structural_defect_is_named() {
    let good = one_pair();
    assert_eq!(good.validate(), Ok(()));
    let mut b = good.clone();
    b.den_id.pop();
    assert_eq!(
        b.validate(),
        Err(RowEqError::Structure("slot planes disagree with n_slots/k"))
    );
    let mut b = good.clone();
    b.arow_ptr = vec![0, 3];
    assert_eq!(b.validate(), Err(RowEqError::Structure("arow_ptr")));
    let mut b = good.clone();
    b.row_ptr = vec![0, 1, 3];
    assert_eq!(b.validate(), Err(RowEqError::Structure("row_ptr")));
    let mut b = good.clone();
    b.nnz_slot.pop();
    assert_eq!(
        b.validate(),
        Err(RowEqError::Structure("nnz_col/nnz_slot lengths differ"))
    );
    let mut b = good.clone();
    b.split.push(0);
    assert_eq!(
        b.validate(),
        Err(RowEqError::Structure("split does not cover the attempts"))
    );
    let mut b = good.clone();
    b.sign[1] = 2;
    assert_eq!(b.validate(), Err(RowEqError::Sign(1)));
    assert_eq!(
        device::prepare(&b),
        Err(GpuError::RowEq(RowEqError::Sign(1)))
    );
    assert_eq!(good.n_attempts(), 1);
    assert_eq!(good.n_rows(), 2);
    assert_eq!(good.slot_bits(0), 1);
}

#[test]
fn device_queries_follow_the_attempts() {
    let row = |x: u64| -> Row { vec![(0, (1, vec![x], 0))] };
    let b = build(
        &[
            Attempt {
                queries: vec![row(1), row(2)],
                pool: vec![row(2)],
            },
            Attempt {
                queries: vec![],
                pool: vec![row(3)],
            },
            Attempt {
                queries: vec![row(4)],
                pool: vec![row(5), row(4)],
            },
        ],
        0,
    );
    match device::prepare(&b).unwrap() {
        device::RowEqStep::Done(_) => panic!("there are queries"),
        device::RowEqStep::Launch(l) => {
            assert_eq!(l.q_row, vec![0, 1, 4]);
            assert_eq!(l.p_lo, vec![2, 2, 5]);
            assert_eq!(l.p_hi, vec![3, 3, 7]);
            assert_eq!(l.aq, vec![(0, 2), (2, 2), (2, 3)]);
            assert_eq!(l.sign, vec![1; 7]);
            assert_eq!(l.config.grid_dim, (1, 1, 1));
            assert_eq!(l.config.block_dim, (BLOCK_1D, 1, 1));
            assert_eq!(device::finish(&l, &vec![0, 1, 1]).member_ok, vec![false, true, true]);
            assert_eq!(device::finish(&l, &vec![1, 1, 2]).member_ok, vec![true, true, false]);
        }
    }
}

#[test]
fn reduced_fractions_are_compared_by_value() {
    // Denominators 1, 2, 3, 7, interned in that order.
    let dens = [1i64, 2, 3, 7];
    let fractions: Vec<(i64, usize)> = vec![(0, 0), (1, 0), (1, 1), (-1, 1), (2, 2), (3, 3), (-3, 3)];
    let val = |(num, id): (i64, usize)| -> Val {
        (num.signum() as i8, vec![num.unsigned_abs()], id as u32)
    };
    for &q in &fractions {
        for &p in &fractions {
            let a = Attempt {
                queries: vec![vec![(4, val(q))]],
                pool: vec![vec![(4, val(p))]],
            };
            let out = reference::verify(&build(&[a], 1)).unwrap();
            assert_eq!(out.member_ok, vec![q.0 * dens[p.1] == p.0 * dens[q.1]]);
        }
    }
}

#[test]
fn row_refusals_have_texts() {
    assert_eq!(
        RowEqError::Structure("row_ptr").text(),
        "malformed pointer plane: row_ptr"
    );
    assert_eq!(RowEqError::Index("nnz_slot").text(), "index out of range: nnz_slot");
    assert_eq!(
        RowEqError::Split(12).text(),
        "attempt 12: split outside its row range"
    );
    assert_eq!(
        RowEqError::Sign(0).text(),
        "slot 0: sign not in -1/0/+1 or zero-inconsistent"
    );
}
