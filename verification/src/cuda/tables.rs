//! What the tables of a launch hold, place by place, and which threads it starts.

use super::host;
use super::rnsfold;
use super::rnsfold::RnsFoldLaunch;
use crate::mont;
use crate::nt;
use crate::planes;
use crate::rnsfold::batch::RnsFoldBatch;
use crate::rnsfold::folds;
use crate::rnsfold::primes;
use crate::rnsfold::primes::PRIMES;
use vstd::arithmetic::power::pow;
use vstd::prelude::*;

verus! {

/// Place `i` of row `j` of a table whose rows have `n` places.
proof fn lemma_place(j: int, n: int, i: int, rows: int)
    requires
        0 <= i < n,
        0 <= j < rows,
    ensures
        0 <= j * n + i < rows * n,
        (j * n + i) / n == j,
        (j * n + i) % n == i,
{
    vstd::arithmetic::div_mod::lemma_fundamental_div_mod_converse(j * n + i, n, j, i);
    assert(0 <= j * n && j * n + n <= rows * n) by (nonlinear_arith)
        requires
            0 <= j < rows,
            n > 0,
    ;
}

/// The tables of a launch go channel by channel. In the row of channel `j`, whose modulus is
/// prime `j` of the list, the places hold: for coefficient `i` its residue times two to the
/// power 64; for multiplier `i` likewise; for word `i` of a magnitude two to the power 64 as
/// often as the word is high, and twice more; each reduced by the modulus. The modulus times
/// its entry among the inverses is one less than a multiple of two to the power 64.
pub proof fn law_tables_by_channel(b: &RnsFoldBatch, l: &RnsFoldLaunch, j: int, i: int)
    requires
        b.valid(),
        l.describes(b),
        0 <= j < l.primes@.len(),
        0 <= i,
    ensures
        l.primes@.len() == b.channels(),
        l.primes@[j] == PRIMES@[j],
        (l.primes@[j] * l.pinvs@[j] + 1) % 0x1_0000_0000_0000_0000 == 0,
        i < b.lams@.len() ==> l.lamres@[j * b.lams@.len() + i] == (folds::coefficient(b, i)
            * 0x1_0000_0000_0000_0000) % (PRIMES@[j] as int),
        i < b.mults@.len() ==> l.multres@[j * b.mults@.len() + i] == (folds::numeral(
            b.mults@[i]@,
        ) * 0x1_0000_0000_0000_0000) % (PRIMES@[j] as int),
        i < b.k ==> l.powr2@[j * b.k + i] == pow(0x1_0000_0000_0000_0000, (i + 2) as nat) % (
        PRIMES@[j] as int),
        l.primes@.len() == l.config.grid_dim.1,
        l.config.grid_dim.0 == (b.concl_slot@.len() as int + 255) / 256,
        l.config.block_dim.0 == 256,
{
    let c: int = b.channels() as int;
    planes::lemma_largest_bound(b.channel_counts(), 0, b.attempts(), 64);
    assert(PRIMES@.take(c)[j] == PRIMES@[j]);
    assert(nt::cong(primes::prime(j) * l.pinvs@[j], -1, mont::radix()));
    if i < b.lams@.len() {
        let n: int = b.lams@.len() as int;
        lemma_place(j, n, i, c);
        folds::lemma_coefficient(b, i);
        assert(l.lamres@[j * n + i] == rnsfold::lam_entry(b, j * n + i));
    }
    if i < b.mults@.len() {
        let n: int = b.mults@.len() as int;
        lemma_place(j, n, i, c);
        folds::lemma_numeral(b.mults@[i]@, 0);
        assert(b.mults@[i]@.subrange(0, b.mults@[i]@.len() as int) =~= b.mults@[i]@);
        assert(l.multres@[j * n + i] == rnsfold::mult_entry(b, j * n + i));
    }
    if i < b.k {
        let n: int = b.k as int;
        lemma_place(j, n, i, c);
        assert(l.powr2@[j * n + i] == rnsfold::power_entry(b, j * n + i));
    }
}

/// A launch knows the attempt of every column and the sign of every slot, and carries the
/// batch's own counts.
pub proof fn law_columns_know_their_attempts(
    b: &RnsFoldBatch,
    l: &RnsFoldLaunch,
    a: int,
    acol: int,
    s: int,
)
    requires
        b.valid(),
        l.describes(b),
        0 <= a < b.acol_ptr@.len() - 1,
        b.acol_ptr@[a] <= acol < b.acol_ptr@[a + 1],
        0 <= s < b.n_slots,
    ensures
        l.acol_attempt@.len() == b.concl_slot@.len(),
        l.acol_attempt@[acol] == a as u32,
        l.sign@[s] == b.sign@[s],
        l.n_acols == b.concl_slot@.len(),
        l.k == b.k as u32,
        l.n_slots == b.n_slots as u32,
{
    assert(rnsfold::belongs(b, a, acol));
}

/// The blocks of a launch have a thread for every item, and no block goes without items.
pub proof fn law_blocks_cover(n: int)
    requires
        0 <= n,
    ensures
        n <= 256 * host::blocks(n) < n + 256,
{
}

} // verus!
