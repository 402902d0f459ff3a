//! The exact integer nullspace of a sparse integer matrix, by elimination modulo a
//! prime and lifting.
//!
//! For a sparse integer matrix `A`, given as accumulating triplets, and an odd prime
//! `p < 2^63`, the family computes
//!
//! - the rank of `A` modulo `p`;
//! - the leftmost column rank profile modulo `p`: column `j` is a pivot where it
//!   strictly increases the rank of the columns `0..=j`;
//! - the canonical basis of the kernel modulo `p`: one vector for each free
//!   (non-pivot) column `f`, ascending in `f`, one at `f` and zero at every other
//!   free column.
//!
//! Both the profile and the basis belong to the matrix, not to a pivoting strategy
//! ([`law_lanes_agree`]), so the residues for different primes are reductions of one
//! rational object, and [`lift`] recovers it ([`recover`], [`lifted`]). The vectors solve the
//! linear system, and every solution is a combination of them ([`system`]).
//!
//! # Lanes
//!
//! - [`reference::nullspace_mod_p`]: dense Gauss-Jordan elimination; each pivot row is
//!   the lowest one that offers the pivot ([`lowest`]).
//! - [`sparse::nullspace_mod_p`]: sparse row-merge elimination with fill-reducing
//!   pivots, a dense core, Montgomery arithmetic and a fill budget.

use crate::linalg;
use crate::text;
use crate::text::{push_decimal, push_text};
use vstd::prelude::*;

pub mod arith;
pub mod clearing;
pub mod fraction;
pub mod lift;
pub mod lifted;
pub mod lowest;
pub mod pinch;
pub mod profile;
pub mod recover;
pub mod reference;
pub mod rref;
pub mod sparse;
pub mod system;
pub mod verify;

verus! {

/// A sparse integer matrix as accumulating triplets `(row, col, weight)`: duplicates
/// are summed.
#[derive(Clone, Copy, Debug)]
pub struct Triplets<'a> {
    /// Number of rows.
    pub rows: usize,
    /// Number of columns.
    pub cols: usize,
    /// The entries, in any order.
    pub entries: &'a [(u32, u32, i64)],
}

/// The entry names a cell of a matrix of `rows` by `cols`.
pub open spec fn entry_in_range(e: (u32, u32, i64), rows: int, cols: int) -> bool {
    e.0 < rows && e.1 < cols
}

impl<'a> Triplets<'a> {
    /// The matrix that the triplets denote.
    pub open spec fn mat(&self) -> Seq<Seq<int>> {
        profile::matrix(self.rows as int, self.cols as int, self.entries@)
    }

    /// Every entry names a cell of the declared shape.
    pub open spec fn in_range(&self) -> bool {
        forall|i: int|
            0 <= i < self.entries@.len() ==> entry_in_range(
                #[trigger] self.entries@[i],
                self.rows as int,
                self.cols as int,
            )
    }

    /// Entry `i` is the first one outside the declared shape.
    pub open spec fn first_out_of_range(&self, i: int) -> bool {
        &&& 0 <= i < self.entries@.len()
        &&& !entry_in_range(self.entries@[i], self.rows as int, self.cols as int)
        &&& forall|j: int|
            0 <= j < i ==> entry_in_range(
                #[trigger] self.entries@[j],
                self.rows as int,
                self.cols as int,
            )
    }

    /// Is every index in range? Where not, the error names the first entry outside.
    pub fn validate(&self) -> (res: Result<(), NullspaceError>)
        ensures
            res is Ok <==> self.in_range(),
            res matches Err(e) ==> exists|i: int|
                #[trigger] self.first_out_of_range(i) && e == (NullspaceError::IndexOutOfRange {
                    row: self.entries@[i].0,
                    col: self.entries@[i].1,
                    rows: self.rows,
                    cols: self.cols,
                }),
    {
        let mut i: usize = 0;
        while i < self.entries.len()
            invariant
                i <= self.entries@.len(),
                forall|j: int|
                    0 <= j < i ==> entry_in_range(
                        #[trigger] self.entries@[j],
                        self.rows as int,
                        self.cols as int,
                    ),
            decreases self.entries@.len() - i,
        {
            let e: (u32, u32, i64) = self.entries[i];
            if e.0 as usize >= self.rows || e.1 as usize >= self.cols {
                assert(self.first_out_of_range(i as int));
                return Err(
                    NullspaceError::IndexOutOfRange {
                        row: e.0,
                        col: e.1,
                        rows: self.rows,
                        cols: self.cols,
                    },
                );
            }
            i += 1;
        }
        Ok(())
    }
}

/// A sparse vector of residues: parallel arrays, `idx` strictly ascending, values
/// nonzero.
#[derive(Clone, Debug, PartialEq, Eq)]
pub struct SparseVec {
    /// Coordinate indices, strictly ascending.
    pub idx: Vec<u32>,
    /// Residues, nonzero, parallel to `idx`.
    pub val: Vec<u64>,
}

/// What an elimination modulo one prime finds.
#[derive(Clone, Debug, PartialEq, Eq)]
pub struct ModpNullspace {
    /// The prime.
    pub prime: u64,
    /// The rank modulo the prime.
    pub rank: usize,
    /// The leftmost column rank profile, ascending.
    pub pivot_cols: Vec<u32>,
    /// Row indices, `rank` of them, whose rows alone have the kernel of the whole
    /// matrix. Lanes may select different rows.
    pub witness_rows: Vec<u32>,
    /// The canonical basis of the kernel: one vector for each free column, ascending.
    pub basis: Vec<SparseVec>,
}

/// `basis` is the canonical kernel basis over the pivot columns `piv`: vector `k` is
/// the canonical vector of the free column number `k`.
pub open spec fn is_canonical_basis(
    mat: Seq<Seq<int>>,
    n: int,
    p: int,
    piv: Seq<u32>,
    basis: Seq<SparseVec>,
) -> bool {
    &&& basis.len() == profile::free_cols(piv, n).len()
    &&& forall|k: int|
        0 <= k < basis.len() ==> profile::is_sparse(
            (#[trigger] basis[k]).idx@,
            basis[k].val@,
            n,
            p,
        ) && profile::is_basis_vector(
            mat,
            n,
            p,
            piv,
            profile::free_cols(piv, n)[k],
            profile::expand(basis[k].idx@, basis[k].val@, n),
        )
}

impl ModpNullspace {
    /// The bundle holds the rank, the rank profile, the canonical kernel basis and a
    /// valid row witness of `mat`, a matrix of `n` columns, modulo `p`.
    pub open spec fn is_nullspace_of(&self, mat: Seq<Seq<int>>, n: int, p: int) -> bool {
        &&& self.prime == p
        &&& self.rank == self.pivot_cols@.len()
        &&& profile::is_profile(mat, n, p, self.pivot_cols@)
        &&& profile::is_witness(mat, n, p, self.rank as int, self.witness_rows@)
        &&& is_canonical_basis(mat, n, p, self.pivot_cols@, self.basis@)
    }

    /// Entry `i` of basis vector `k` is the first one outside the pivot columns.
    pub open spec fn first_free_entry(&self, k: int, i: int) -> bool {
        let idx = self.basis@[k].idx@;
        &&& 0 <= i < idx.len()
        &&& !profile::is_pivot(self.pivot_cols@, idx[i] as int)
        &&& forall|j: int|
            0 <= j < i ==> profile::is_pivot(self.pivot_cols@, #[trigger] idx[j] as int)
    }

    /// The free column of basis vector `k`: the first coordinate it lists that is no
    /// pivot column.
    pub fn free_col(&self, k: usize) -> (f: u32)
        requires
            k < self.basis@.len(),
            profile::ascending(self.pivot_cols@),
            exists|i: int| self.first_free_entry(k as int, i),
        ensures
            exists|i: int|
                #[trigger] self.first_free_entry(k as int, i) && f == self.basis@[k as int].idx@[i],
            forall|mat: Seq<Seq<int>>, n: int, p: int|
                p > 1 && #[trigger] self.is_nullspace_of(mat, n, p) ==> f == profile::free_cols(
                    self.pivot_cols@,
                    n,
                )[k as int],
    {
        let idx: &Vec<u32> = &self.basis[k].idx;
        let ghost piv = self.pivot_cols@;
        let ghost hit: int = choose|i: int| self.first_free_entry(k as int, i);
        let mut i: usize = 0;
        while find_col(&self.pivot_cols, idx[i]).is_some()
            invariant
                i <= hit,
                hit < idx.len(),
                self.first_free_entry(k as int, hit),
                idx@ == self.basis@[k as int].idx@,
                piv == self.pivot_cols@,
                k < self.basis@.len(),
                profile::ascending(piv),
                forall|j: int| 0 <= j < i ==> profile::is_pivot(piv, #[trigger] idx@[j] as int),
            decreases idx@.len() - i,
        {
            assert(profile::is_pivot(piv, idx@[i as int] as int));
            i += 1;
        }
        assert(self.first_free_entry(k as int, i as int));
        proof {
            assert forall|mat: Seq<Seq<int>>, n: int, p: int|
                p > 1 && #[trigger] self.is_nullspace_of(mat, n, p) implies idx@[i as int]
                == profile::free_cols(piv, n)[k as int] by {
                let v: SparseVec = self.basis@[k as int];
                let c: int = idx@[i as int] as int;
                let y: Seq<int> = profile::expand(v.idx@, v.val@, n);
                assert(profile::is_sparse(v.idx@, v.val@, n, p));
                profile::lemma_coef_listed(v.idx@, v.val@, i as int);
                assert(0 < v.val@[i as int]);
                assert(v.idx@[i as int] < n);
                assert(y[c] != 0);
            }
        }
        idx[i]
    }
}

/// The basis vectors of a nullspace list their free columns, so that each has a first
/// coordinate outside the pivot columns, and that is its free column.
pub proof fn law_free_column_is_listed(
    mat: Seq<Seq<int>>,
    n: int,
    p: int,
    ns: ModpNullspace,
    k: int,
)
    requires
        p > 1,
        n >= 0,
        ns.is_nullspace_of(mat, n, p),
        0 <= k < ns.basis@.len(),
    ensures
        exists|i: int| #[trigger] ns.first_free_entry(k, i),
        forall|i: int| #[trigger]
            ns.first_free_entry(k, i) ==> ns.basis@[k].idx@[i] == profile::free_cols(
                ns.pivot_cols@,
                n,
            )[k],
{
    let piv: Seq<u32> = ns.pivot_cols@;
    let v: SparseVec = ns.basis@[k];
    let f: int = profile::free_cols(piv, n)[k];
    profile::lemma_free_cols(piv, n);
    assert(profile::is_sparse(v.idx@, v.val@, n, p));
    let y: Seq<int> = profile::expand(v.idx@, v.val@, n);
    assert(y[f] == 1);
    let at: int = choose|j: int| 0 <= j < v.idx@.len() && #[trigger] v.idx@[j] == f;
    lemma_first_free(ns, k, at);
    assert forall|i: int| #[trigger] ns.first_free_entry(k, i) implies v.idx@[i] == f by {
        let c: int = v.idx@[i] as int;
        profile::lemma_coef_listed(v.idx@, v.val@, i);
        assert(0 < v.val@[i]);
        assert(v.idx@[i] < n);
        assert(y[c] != 0);
    }
}

/// Up to a coordinate outside the pivot columns there is a first one.
proof fn lemma_first_free(ns: ModpNullspace, k: int, at: int)
    requires
        0 <= at < ns.basis@[k].idx@.len(),
        !profile::is_pivot(ns.pivot_cols@, ns.basis@[k].idx@[at] as int),
    ensures
        exists|i: int| #[trigger] ns.first_free_entry(k, i),
    decreases at,
{
    if !ns.first_free_entry(k, at) {
        let j: int = choose|j: int|
            0 <= j < at && !profile::is_pivot(
                ns.pivot_cols@,
                #[trigger] ns.basis@[k].idx@[j] as int,
            );
        lemma_first_free(ns, k, j);
    }
}

/// The place of `c` in a strictly ascending list, by binary search.
pub fn find_col(cols: &Vec<u32>, c: u32) -> (res: Option<usize>)
    requires
        profile::ascending(cols@),
    ensures
        res is Some <==> profile::is_pivot(cols@, c as int),
        res matches Some(k) ==> k < cols@.len() && cols@[k as int] == c,
{
    let mut lo: usize = 0;
    let mut hi: usize = cols.len();
    while lo < hi
        invariant
            lo <= hi <= cols@.len(),
            profile::ascending(cols@),
            forall|j: int| 0 <= j < lo ==> #[trigger] cols@[j] < c,
            forall|j: int| hi <= j < cols@.len() ==> #[trigger] cols@[j] > c,
        decreases hi - lo,
    {
        let mid: usize = lo + (hi - lo) / 2;
        let v: u32 = cols[mid];
        if v == c {
            return Some(mid);
        } else if v < c {
            lo = mid + 1;
        } else {
            hi = mid;
        }
    }
    proof {
        if profile::is_pivot(cols@, c as int) {
            let k: int = choose|k: int| 0 <= k < cols@.len() && #[trigger] cols@[k] == c as int;
            assert(cols@[k] < c || cols@[k] > c);
        }
    }
    None
}

/// Typed refusals.
#[derive(Clone, Copy, Debug, PartialEq, Eq, Structural)]
pub enum NullspaceError {
    /// The modulus must be odd, at least 3 and below `2^63`.
    BadPrime {
        /// The offending value.
        prime: u64,
    },
    /// A triplet index exceeded the declared shape.
    IndexOutOfRange {
        /// Offending row index.
        row: u32,
        /// Offending column index.
        col: u32,
        /// Declared row count.
        rows: usize,
        /// Declared column count.
        cols: usize,
    },
    /// The live-entry count of the elimination exceeded the caller's fill budget.
    FillBudget {
        /// Live sparse entries when the budget tripped.
        live_entries: usize,
        /// The budget that tripped.
        max_entries: usize,
        /// Pivots completed before the refusal.
        pivots_done: usize,
        /// `1` for row-space reduction, `2` for leftmost canonicalization.
        phase: u8,
    },
    /// `rows * cols` exceeded the guard of the dense reference.
    DenseGuard {
        /// Declared row count.
        rows: usize,
        /// Declared column count.
        cols: usize,
    },
}

impl NullspaceError {
    /// What the refusal says.
    pub open spec fn rendered(self) -> Seq<char> {
        match self {
            NullspaceError::BadPrime { prime } => "prime "@ + text::decimal(prime as int) + " is not an odd prime below 2^63"@,
            NullspaceError::IndexOutOfRange { row, col, rows, cols } => "triplet ("@ + text::decimal(row as int) + ", "@ + text::decimal(col as int) + ") outside declared shape "@ + text::decimal(rows as int) + "x"@ + text::decimal(cols as int),
            NullspaceError::FillBudget { live_entries, max_entries, pivots_done, phase } => "fill budget exceeded in phase "@ + text::decimal(phase as int) + ": "@ + text::decimal(live_entries as int) + " live entries > "@ + text::decimal(max_entries as int) + " after "@ + text::decimal(pivots_done as int) + " pivots"@,
            NullspaceError::DenseGuard { rows, cols } => "dense reference guard: "@ + text::decimal(rows as int) + "x"@ + text::decimal(cols as int) + " too large"@,
        }
    }

    /// The text of the refusal.
    pub fn text(&self) -> (r: String)
        ensures
            r@ == self.rendered(),
    {
        let mut s: String = String::new();
        match self {
            NullspaceError::BadPrime { prime } => {
                push_text(&mut s, "prime ");
                push_decimal(&mut s, *prime as u64);
                push_text(&mut s, " is not an odd prime below 2^63");
            },
            NullspaceError::IndexOutOfRange { row, col, rows, cols } => {
                push_text(&mut s, "triplet (");
                push_decimal(&mut s, *row as u64);
                push_text(&mut s, ", ");
                push_decimal(&mut s, *col as u64);
                push_text(&mut s, ") outside declared shape ");
                push_decimal(&mut s, *rows as u64);
                push_text(&mut s, "x");
                push_decimal(&mut s, *cols as u64);
            },
            NullspaceError::FillBudget { live_entries, max_entries, pivots_done, phase } => {
                push_text(&mut s, "fill budget exceeded in phase ");
                push_decimal(&mut s, *phase as u64);
                push_text(&mut s, ": ");
                push_decimal(&mut s, *live_entries as u64);
                push_text(&mut s, " live entries > ");
                push_decimal(&mut s, *max_entries as u64);
                push_text(&mut s, " after ");
                push_decimal(&mut s, *pivots_done as u64);
                push_text(&mut s, " pivots");
            },
            NullspaceError::DenseGuard { rows, cols } => {
                push_text(&mut s, "dense reference guard: ");
                push_decimal(&mut s, *rows as u64);
                push_text(&mut s, "x");
                push_decimal(&mut s, *cols as u64);
                push_text(&mut s, " too large");
            },
        }
        assert(s@ =~= self.rendered());
        s
    }
}

/// `p` is odd, at least 3 and below `2^63`.
pub open spec fn is_prime_ok(p: int) -> bool {
    3 <= p < 0x8000_0000_0000_0000 && p % 2 == 1
}

/// Is `p` acceptable to every lane: odd, at least 3, below `2^63`? That `p` is prime
/// is the caller's promise.
pub fn prime_ok(p: u64) -> (res: bool)
    ensures
        res == is_prime_ok(p as int),
{
    p >= 3 && p % 2 == 1 && p < 0x8000_0000_0000_0000
}

/// The lane law: the rank, the rank profile and the canonical basis belong to the
/// matrix, so any two bundles for one matrix and one modulus agree on them.
pub proof fn law_lanes_agree(
    mat: Seq<Seq<int>>,
    n: int,
    p: int,
    a: ModpNullspace,
    b: ModpNullspace,
)
    requires
        p > 1,
        n >= 0,
        linalg::shaped(mat, n),
        a.is_nullspace_of(mat, n, p),
        b.is_nullspace_of(mat, n, p),
    ensures
        a.rank == b.rank,
        a.pivot_cols@ == b.pivot_cols@,
        a.basis@.len() == b.basis@.len(),
        forall|k: int|
            0 <= k < a.basis@.len() ==> (#[trigger] a.basis@[k]).idx@ == b.basis@[k].idx@
                && a.basis@[k].val@ == b.basis@[k].val@,
{
    profile::law_profile_unique(mat, n, p, a.pivot_cols@, b.pivot_cols@);
    assert forall|k: int| 0 <= k < a.basis@.len() implies (#[trigger] a.basis@[k]).idx@
        == b.basis@[k].idx@ && a.basis@[k].val@ == b.basis@[k].val@ by {
        let u: SparseVec = a.basis@[k];
        let v: SparseVec = b.basis@[k];
        let f: int = profile::free_cols(a.pivot_cols@, n)[k];
        profile::law_basis_vector_unique(
            mat,
            n,
            p,
            a.pivot_cols@,
            f,
            u.idx@,
            u.val@,
            v.idx@,
            v.val@,
        );
    }
}

/// Rank and nullity add up to the number of columns.
pub proof fn law_rank_nullity(mat: Seq<Seq<int>>, n: int, p: int, a: ModpNullspace)
    requires
        n >= 0,
        a.is_nullspace_of(mat, n, p),
    ensures
        a.rank + a.basis@.len() == n,
{
    profile::lemma_free_count(a.pivot_cols@, n);
}

} // verus!
