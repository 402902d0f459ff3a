//! Work handed out item by item to a thread pool.

use rayon::iter::{IntoParallelIterator, ParallelIterator};
use vstd::prelude::*;

verus! {

/// Whether `f` holds of some index below `n`. This calls `rayon`'s
/// `ParallelIterator::any` on the range `0..n`, of which it is claimed that it answers
/// `true` only where `f` answered `true` on some item, and `false` only after `f`
/// answered `false` on every item.
#[verifier::external_body]
pub(crate) fn par_any<F: Fn(usize) -> bool + Sync + Send>(n: usize, f: F) -> (r: bool)
    requires
        forall|i: usize| i < n ==> #[trigger] call_requires(f, (i,)),
    ensures
        r ==> exists|i: usize| i < n && #[trigger] call_ensures(f, (i,), true),
        !r ==> forall|i: usize| i < n ==> #[trigger] call_ensures(f, (i,), false),
{
    (0..n).into_par_iter().any(f)
}

/// The values of `f` on the indices below `n`, in order. This calls `rayon`'s
/// `ParallelIterator::map` and `collect` on the range `0..n`, of which it is claimed that
/// the collected vector holds at place `i` what `f` answered on `i`.
#[verifier::external_body]
pub(crate) fn par_map<F: Fn(usize) -> u64 + Sync + Send>(n: usize, f: F) -> (r: Vec<u64>)
    requires
        forall|i: usize| i < n ==> #[trigger] call_requires(f, (i,)),
    ensures
        r@.len() == n,
        forall|i: usize| i < n ==> call_ensures(f, (i,), #[trigger] r@[i as int]),
{
    (0..n).into_par_iter().map(f).collect()
}

} // verus!
