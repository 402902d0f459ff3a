//! The device lane of `roweq`: the queries that are uploaded, how they are launched, and what
//! the matches that come back mean.

use super::error::GpuError;
use super::host;
use super::host::{launch_1d, LaunchConfig};
use crate::roweq::batch::{RowEqBatch, RowEqError, RowEqOutcome};
use crate::roweq::reference;
use vstd::prelude::*;

verus! {

/// What a kernel launch takes besides the planes of the descriptor: one query per query row,
/// attempt by attempt.
#[derive(Debug, Clone, PartialEq, Eq)]
pub struct RowEqLaunch {
    /// Per query: the row.
    pub q_row: Vec<u32>,
    /// Per query: where its pool begins.
    pub p_lo: Vec<u32>,
    /// Per query: where its pool ends.
    pub p_hi: Vec<u32>,
    /// Per attempt: where its queries begin and end.
    pub aq: Vec<(usize, usize)>,
    /// Per slot: the sign.
    pub sign: Vec<i32>,
    /// The grid.
    pub config: LaunchConfig,
}

/// How a batch goes on.
#[derive(Debug, Clone, PartialEq, Eq)]
pub enum RowEqStep {
    /// There is nothing to launch.
    Done(RowEqOutcome),
    /// The kernel is to be launched.
    Launch(RowEqLaunch),
}

/// The queries of attempt `a` follow those of the one before, one per query row.
pub open spec fn piece(aq: Seq<(usize, usize)>, b: &RowEqBatch, a: int) -> bool {
    &&& aq[a].0 == (if a > 0 {
        aq[a - 1].1
    } else {
        0
    })
    &&& aq[a].1 - aq[a].0 == b.split@[a] - b.arow_ptr@[a]
}

/// Query `i` asks about a row of attempt `a`.
pub open spec fn asks(l: &RowEqLaunch, b: &RowEqBatch, a: int, i: int) -> bool {
    &&& l.q_row@[i] == b.arow_ptr@[a] + (i - l.aq@[a].0)
    &&& l.p_lo@[i] == b.split@[a]
    &&& l.p_hi@[i] == b.arow_ptr@[a + 1]
}

/// The first `n` attempts have their queries.
pub open spec fn tabled(l: &RowEqLaunch, b: &RowEqBatch, n: int) -> bool {
    &&& l.aq@.len() == n
    &&& l.q_row@.len() == (if n > 0 {
        l.aq@[n - 1].1
    } else {
        0
    })
    &&& l.p_lo@.len() == l.q_row@.len()
    &&& l.p_hi@.len() == l.q_row@.len()
    &&& forall|a: int| 0 <= a < n ==> #[trigger] piece(l.aq@, b, a)
    &&& forall|a: int, i: int|
        0 <= a < n && l.aq@[a].0 <= i < l.aq@[a].1 ==> #[trigger] asks(l, b, a, i)
}

impl RowEqLaunch {
    /// The launch belongs to the batch.
    pub open spec fn describes(&self, b: &RowEqBatch) -> bool {
        &&& tabled(self, b, b.attempts())
        &&& self.sign@.len() == b.n_slots
        &&& forall|s: int| 0 <= s < b.n_slots ==> #[trigger] self.sign@[s] == b.sign@[s]
        &&& self.config == (LaunchConfig {
            grid_dim: (host::blocks(self.q_row@.len() as int) as u32, 1, 1),
            block_dim: (host::BLOCK_1D, 1, 1),
            shared_mem_bytes: 0,
        })
    }
}

/// The queries of an attempt end before those of a later one, and are no more than the rows.
proof fn lemma_pieces(aq: Seq<(usize, usize)>, b: &RowEqBatch, a: int, c: int)
    requires
        b.valid(),
        aq.len() <= b.attempts(),
        forall|x: int| 0 <= x < aq.len() ==> #[trigger] piece(aq, b, x),
        0 <= a <= c < aq.len(),
    ensures
        aq[a].0 <= aq[a].1 <= aq[c].1 <= b.arow_ptr@[c + 1],
    decreases c,
{
    assert(piece(aq, b, c));
    assert(b.split_ok(c));
    if a < c {
        lemma_pieces(aq, b, a, c - 1);
    } else if c > 0 {
        lemma_pieces(aq, b, c - 1, c - 1);
    }
}

/// The queries of a batch.
fn query_tables(b: &RowEqBatch) -> (l: RowEqLaunch)
    requires
        b.valid(),
    ensures
        tabled(&l, b, b.attempts()),
        l.q_row@.len() <= u32::MAX,
{
    let n: usize = b.n_attempts();
    let mut l: RowEqLaunch = RowEqLaunch {
        q_row: Vec::new(),
        p_lo: Vec::new(),
        p_hi: Vec::new(),
        aq: Vec::new(),
        sign: Vec::new(),
        config: LaunchConfig {
            grid_dim: (1, 1, 1),
            block_dim: (1, 1, 1),
            shared_mem_bytes: 0,
        },
    };
    let mut a: usize = 0;
    while a < n
        invariant
            b.valid(),
            n == b.attempts(),
            n == b.arow_ptr.len() - 1,
            n == b.split.len(),
            a <= n,
            tabled(&l, b, a as int),
        decreases n - a,
    {
        assert(b.split_ok(a as int));
        let lo: u32 = b.arow_ptr[a];
        let mid: u32 = b.split[a];
        let hi: u32 = b.arow_ptr[a + 1];
        let ghost had: RowEqLaunch = l;
        let from: usize = l.q_row.len();
        let ghost start: int = from as int;
        let mut q: u32 = lo;
        while q < mid
            invariant
                lo <= q <= mid,
                start == had.q_row@.len(),
                l.aq@ == had.aq@,
                l.q_row@.len() == start + (q - lo),
                l.p_lo@.len() == l.q_row@.len(),
                l.p_hi@.len() == l.q_row@.len(),
                forall|i: int| 0 <= i < start ==> l.q_row@[i] == had.q_row@[i],
                forall|i: int|
                    0 <= i < start && i < had.p_lo@.len() ==> l.p_lo@[i] == had.p_lo@[i],
                forall|i: int|
                    0 <= i < start && i < had.p_hi@.len() ==> l.p_hi@[i] == had.p_hi@[i],
                forall|i: int|
                    start <= i < l.q_row@.len() ==> #[trigger] l.q_row@[i] == lo + (i - start),
                forall|i: int| start <= i < l.p_lo@.len() ==> #[trigger] l.p_lo@[i] == mid,
                forall|i: int| start <= i < l.p_hi@.len() ==> #[trigger] l.p_hi@[i] == hi,
            decreases mid - q,
        {
            l.q_row.push(q);
            l.p_lo.push(mid);
            l.p_hi.push(hi);
            q = q + 1;
        }
        let end: usize = l.q_row.len();
        l.aq.push((from, end));
        proof {
            assert forall|x: int| 0 <= x < a + 1 implies #[trigger] piece(l.aq@, b, x) by {
                if x < a {
                    assert(piece(had.aq@, b, x));
                }
            }
            assert forall|x: int, i: int|
                0 <= x < a + 1 && l.aq@[x].0 <= i < l.aq@[x].1 implies #[trigger] asks(
                &l,
                b,
                x,
                i,
            ) by {
                if x < a {
                    lemma_pieces(had.aq@, b, x, a - 1);
                    assert(asks(&had, b, x, i));
                }
            }
        }
        a = a + 1;
    }
    proof {
        if n > 0 {
            lemma_pieces(l.aq@, b, n - 1, n - 1);
        }
    }
    l
}

/// The signs of the slots.
fn sign_table(b: &RowEqBatch) -> (t: Vec<i32>)
    requires
        b.sign@.len() == b.n_slots,
    ensures
        t@.len() == b.n_slots,
        forall|s: int| 0 <= s < b.n_slots ==> #[trigger] t@[s] == b.sign@[s],
{
    let mut t: Vec<i32> = Vec::new();
    let mut s: usize = 0;
    while s < b.sign.len()
        invariant
            s <= b.sign@.len(),
            t@.len() == s,
            forall|i: int| 0 <= i < s ==> #[trigger] t@[i] == b.sign@[i],
        decreases b.sign@.len() - s,
    {
        t.push(b.sign[s] as i32);
        s = s + 1;
    }
    t
}

/// What stands between a batch and its launch: the batch is validated, and its queries are
/// listed. Where there are none, every attempt holds and nothing is launched. A valid batch
/// has fewer than `2^32` queries, so its grid can be expressed.
pub fn prepare(b: &RowEqBatch) -> (r: Result<RowEqStep, GpuError>)
    ensures
        r is Ok <==> b.valid(),
        r matches Err(e) ==> (e matches GpuError::RowEq(d) && b.is_first_defect(d)),
        r matches Ok(RowEqStep::Done(out)) ==> (forall|a: int|
            0 <= a < b.attempts() ==> b.arow_ptr@[a] == #[trigger] b.split@[a]) && reference::exact(b, out),
        r matches Ok(RowEqStep::Launch(l)) ==> l.q_row@.len() > 0 && l.describes(b),
{
    match b.validate() {
        Ok(_) => {},
        Err(e) => return Err(GpuError::RowEq(e)),
    }
    let mut l: RowEqLaunch = query_tables(b);
    let n: usize = b.n_attempts();
    if l.q_row.len() == 0 {
        let mut member_ok: Vec<bool> = Vec::new();
        let mut a: usize = 0;
        while a < n
            invariant
                b.valid(),
                n == b.attempts(),
                tabled(&l, b, n as int),
                l.q_row@.len() == 0,
                a <= n,
                member_ok@.len() == a,
                forall|i: int| 0 <= i < a ==> b.arow_ptr@[i] == #[trigger] b.split@[i],
                forall|i: int| 0 <= i < a ==> #[trigger] member_ok@[i] == b.members(i),
            decreases n - a,
        {
            proof {
                lemma_pieces(l.aq@, b, a as int, n - 1);
                assert(piece(l.aq@, b, a as int));
                assert(b.members(a as int));
            }
            member_ok.push(true);
            a = a + 1;
        }
        return Ok(RowEqStep::Done(RowEqOutcome { member_ok }));
    }
    let ghost tables: RowEqLaunch = l;
    l.sign = sign_table(b);
    match launch_1d(l.q_row.len()) {
        Ok(c) => {
            l.config = c;
        },
        Err(e) => return Err(GpuError::from(e)),
    }
    proof {
        assert forall|a: int, i: int|
            0 <= a < n && l.aq@[a].0 <= i < l.aq@[a].1 implies #[trigger] asks(&l, b, a, i) by {
            assert(asks(&tables, b, a, i));
        }
    }
    Ok(RowEqStep::Launch(l))
}

/// Every query of attempt `a` was matched.
pub open spec fn all_matched(l: &RowEqLaunch, matched: Seq<u32>, a: int) -> bool {
    forall|i: int|
        l.aq@[a].0 <= i < l.aq@[a].1 ==> #[trigger] matched[i] == 1
}

/// The outcome of a launch whose kernel reported `matched`: an attempt holds where each of its
/// queries was matched.
pub fn finish(l: &RowEqLaunch, matched: &Vec<u32>) -> (out: RowEqOutcome)
    requires
        forall|a: int| 0 <= a < l.aq@.len() ==> (#[trigger] l.aq@[a]).1 <= matched@.len(),
    ensures
        out.member_ok@.len() == l.aq@.len(),
        forall|a: int|
            0 <= a < l.aq@.len() ==> #[trigger] out.member_ok@[a] == all_matched(l, matched@, a),
{
    let mut member_ok: Vec<bool> = Vec::new();
    let mut a: usize = 0;
    while a < l.aq.len()
        invariant
            forall|a: int| 0 <= a < l.aq@.len() ==> (#[trigger] l.aq@[a]).1 <= matched@.len(),
            a <= l.aq@.len(),
            member_ok@.len() == a,
            forall|i: int| 0 <= i < a ==> #[trigger] member_ok@[i] == all_matched(l, matched@, i),
        decreases l.aq@.len() - a,
    {
        let (lo, hi): (usize, usize) = l.aq[a];
        let mut i: usize = lo;
        while i < hi && matched[i] == 1
            invariant
                hi <= matched@.len(),
                lo <= i,
                forall|j: int| lo <= j < i && j < hi ==> #[trigger] matched@[j] == 1,
            decreases hi - i,
        {
            i = i + 1;
        }
        member_ok.push(i >= hi);
        a = a + 1;
    }
    RowEqOutcome { member_ok }
}

/// Where the kernel matches a query exactly if its row equals some row of its pool, the
/// outcome is the exact one, as the scalar lane reports it.
pub proof fn law_lane_is_exact(
    b: &RowEqBatch,
    l: RowEqLaunch,
    matched: Seq<u32>,
    out: RowEqOutcome,
)
    requires
        b.valid(),
        l.describes(b),
        matched.len() == l.q_row@.len(),
        forall|i: int|
            0 <= i < matched.len() ==> (#[trigger] matched[i] == 1 <==> exists|r: int|
                l.p_lo@[i] <= r < l.p_hi@[i] && #[trigger] b.same_row(l.q_row@[i] as int, r)),
        out.member_ok@.len() == l.aq@.len(),
        forall|a: int|
            0 <= a < l.aq@.len() ==> #[trigger] out.member_ok@[a] == all_matched(
                &l,
                matched,
                a,
            ),
    ensures
        reference::exact(b, out),
{
    let n: int = b.attempts();
    assert forall|a: int| 0 <= a < n implies #[trigger] out.member_ok@[a] == b.members(a) by {
        let lo: int = l.aq@[a].0 as int;
        lemma_pieces(l.aq@, b, a, n - 1);
        assert(piece(l.aq@, b, a));
        if all_matched(&l, matched, a) {
            assert forall|q: int| b.arow_ptr@[a] <= q < b.split@[a] implies #[trigger] b.found(
                a,
                q,
            ) by {
                let i: int = lo + (q - b.arow_ptr@[a]);
                assert(asks(&l, b, a, i));
                assert(matched[i] == 1);
            }
        }
        if b.members(a) {
            assert forall|i: int| lo <= i < l.aq@[a].1 implies #[trigger] matched[i] == 1 by {
                assert(asks(&l, b, a, i));
                let q: int = l.q_row@[i] as int;
                assert(b.found(a, q));
                let r: int = choose|r: int|
                    b.split@[a] <= r < b.arow_ptr@[a + 1] && #[trigger] b.same_row(q, r);
                assert(l.p_lo@[i] <= r < l.p_hi@[i] && b.same_row(l.q_row@[i] as int, r));
            }
        }
    }
}

/// Where the kernel matches a query exactly if its row equals some row of its pool, the device
/// lane reports what the scalar lane reports.
pub proof fn law_lane_agrees_with_reference(
    b: &RowEqBatch,
    l: RowEqLaunch,
    matched: Seq<u32>,
    out: RowEqOutcome,
    r: Result<RowEqOutcome, RowEqError>,
)
    requires
        b.valid(),
        l.describes(b),
        matched.len() == l.q_row@.len(),
        forall|i: int|
            0 <= i < matched.len() ==> (#[trigger] matched[i] == 1 <==> exists|r: int|
                l.p_lo@[i] <= r < l.p_hi@[i] && #[trigger] b.same_row(l.q_row@[i] as int, r)),
        out.member_ok@.len() == l.aq@.len(),
        forall|a: int|
            0 <= a < l.aq@.len() ==> #[trigger] out.member_ok@[a] == all_matched(
                &l,
                matched,
                a,
            ),
        reference::is_outcome(b, r),
    ensures
        reference::same_outcome(Ok(out), r),
{
    law_lane_is_exact(b, l, matched, out);
    reference::law_outcome_unique(b, Ok(out), r);
}

} // verus!
