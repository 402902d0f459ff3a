//! Every lane of `sweep` against an independent formulation.

use maitria_kernels::sweep;
use maitria_kernels::sweep::{reference, Host, Lane, MinMax, SignPred};

const PREDS: [SignPred; 4] = [
    SignPred::NonNeg,
    SignPred::Pos,
    SignPred::NonPos,
    SignPred::Neg,
];

fn indep_first_violation(nums: &[i64], pred: SignPred) -> Option<usize> {
    nums.iter()
        .enumerate()
        .find(|&(_, &x)| !pred.holds(x))
        .map(|(i, _)| i)
}

fn indep_minmax(nums: &[i64]) -> Option<MinMax> {
    let min = nums.iter().copied().min()?;
    let max = nums.iter().copied().max()?;
    Some(MinMax {
        min,
        min_idx: nums.iter().position(|&x| x == min).expect("min occurs"),
        max,
        max_idx: nums.iter().position(|&x| x == max).expect("max occurs"),
    })
}

type FvImpl = (&'static str, fn(&[i64], SignPred) -> Option<usize>);
type MmImpl = (&'static str, fn(&[i64]) -> Option<MinMax>);

fn fv_impls() -> Vec<FvImpl> {
    vec![
        ("dispatch", sweep::first_violation),
        ("reference", reference::first_violation),
        ("neon", sweep::neon::first_violation),
        ("avx2", sweep::avx2::first_violation),
    ]
}

fn mm_impls() -> Vec<MmImpl> {
    vec![
        ("dispatch", sweep::minmax),
        ("reference", reference::minmax),
        ("neon", sweep::neon::minmax),
        ("avx2", sweep::avx2::minmax),
    ]
}

fn assert_all_agree(nums: &[i64]) {
    for pred in PREDS {
        let want = indep_first_violation(nums, pred);
        for (name, f) in fv_impls() {
            assert_eq!(
                f(nums, pred),
                want,
                "first_violation lane `{name}` diverged (pred {pred:?}, slab {nums:?})"
            );
        }
        for lane in [Lane::Reference, Lane::Neon, Lane::Avx2] {
            assert_eq!(sweep::first_violation_on(lane, nums, pred), want);
        }
    }
    let want = indep_minmax(nums);
    for (name, f) in mm_impls() {
        assert_eq!(
            f(nums),
            want,
            "minmax lane `{name}` diverged (slab {nums:?})"
        );
    }
    for lane in [Lane::Reference, Lane::Neon, Lane::Avx2] {
        assert_eq!(sweep::minmax_on(lane, nums), want);
    }
}

struct Draw(u64);

impl Draw {
    fn word(&mut self) -> u64 {
        self.0 ^= self.0 << 13;
        self.0 ^= self.0 >> 7;
        self.0 ^= self.0 << 17;
        self.0
    }

    fn below(&mut self, n: u64) -> u64 {
        self.word() % n
    }

    fn entry(&mut self) -> i64 {
        match self.below(9) {
            0..=2 => self.word() as i64,
            3..=6 => self.below(7) as i64 - 3,
            7 => i64::MIN,
            _ => i64::MAX,
        }
    }
}

#[test]
fn lanes_agree_on_boundary_heavy_slabs() {
    let mut d = Draw(0x9e37_79b9_7f4a_7c15);
    for _ in 0..300 {
        let n = d.below(200) as usize;
        let nums: Vec<i64> = (0..n).map(|_| d.entry()).collect();
        assert_all_agree(&nums);
    }
}

#[test]
fn accept_verdict_scans() {
    let mut d = Draw(0x1234_5678_9abc_def1);
    for _ in 0..100 {
        let n = d.below(300) as usize;
        let nums: Vec<i64> = (0..n).map(|_| (d.word() >> 1).max(1) as i64).collect();
        assert_all_agree(&nums);
        assert_eq!(sweep::first_violation(&nums, SignPred::Pos), None);
    }
}

#[test]
fn planted_violation_every_position() {
    for n in 1..64usize {
        for pos in 0..n {
            let mut nums: Vec<i64> = (0..n as i64).map(|i| i % 1000 + 1).collect();
            nums[pos] = -1;
            for (name, f) in fv_impls() {
                assert_eq!(
                    f(&nums, SignPred::NonNeg),
                    Some(pos),
                    "lane `{name}` missed the planted violation at {pos}"
                );
            }
        }
    }
}

#[test]
fn deterministic_edges() {
    assert_all_agree(&[]);
    for x in [i64::MIN, -1, 0, 1, i64::MAX] {
        assert_all_agree(&[x]);
    }
    assert_all_agree(&[0; 40]);
    assert_all_agree(&[5, -7, 5, -7, 5, -7, 5, -7, 5, -7, 5, -7, 5, -7, 5, -7, 5]);
    for k in 0..24 {
        let mut v = vec![2i64; 24];
        v[k] = -2;
        assert_all_agree(&v);
    }
    let mut v = vec![0i64; 33];
    v[7] = i64::MIN;
    v[8] = i64::MAX;
    v[31] = i64::MIN;
    v[32] = i64::MAX;
    assert_all_agree(&v);
}

#[test]
fn dispatch_lane_is_observable() {
    assert_eq!(sweep::active_lane(Host::Aarch64), Lane::Neon);
    assert_eq!(sweep::active_lane(Host::Other), Lane::Reference);
    let lane = sweep::active_lane(Host::X86_64 { avx2: true });
    assert!(matches!(lane, Lane::Avx2 | Lane::Reference));
    assert_eq!(lane, Lane::Avx2);
    assert_eq!(sweep::active_lane(Host::X86_64 { avx2: false }), Lane::Reference);
}

#[test]
fn predicates_split_at_zero() {
    let rows = [
        (SignPred::NonNeg, [false, true, true]),
        (SignPred::Pos, [false, false, true]),
        (SignPred::NonPos, [true, true, false]),
        (SignPred::Neg, [true, false, false]),
    ];
    for (pred, want) in rows {
        assert_eq!([pred.holds(-1), pred.holds(0), pred.holds(1)], want);
    }
}

#[test]
fn first_of_equal_extremes_is_reported() {
    assert_eq!(
        sweep::minmax(&[3, -2, 9, -2, 9]),
        Some(MinMax { min: -2, min_idx: 1, max: 9, max_idx: 2 })
    );
    assert_eq!(sweep::minmax(&[]), None);
}

#[test]
fn a_shared_denominator_changes_no_verdict() {
    // Values over 7, and the same values over 21.
    let nums = [5i64, -3, 9, -3, 9, 0];
    let scaled: Vec<i64> = nums.iter().map(|x| 3 * x).collect();
    for pred in PREDS {
        assert_eq!(
            sweep::first_violation(&nums, pred),
            sweep::first_violation(&scaled, pred)
        );
    }
    let (a, b) = (sweep::minmax(&nums).unwrap(), sweep::minmax(&scaled).unwrap());
    assert_eq!((a.min_idx, a.max_idx), (1, 2));
    assert_eq!((b.min_idx, b.max_idx), (1, 2));
    assert_eq!((a.min * 3, a.max * 3), (b.min, b.max));
}
