//! `rnsfold`: batched exact linear-combination equality over residue channels.
//!
//! An attempt holds, per output column, signed coefficients, signed operands (a raw
//! numerator times a positive multiplier) and a conclusion value. A lane decides whether
//! in every column the coefficients times the operands sum to the conclusion.
//!
//! A lane evaluates the difference modulo the first primes of a table, the channels. A
//! nonzero residue is a mismatch. Residues that are zero in every channel are an equality,
//! provided that the difference is smaller in magnitude than the product of the moduli.
//! The number of channels is chosen from the batch's own planes, so that it is
//! ([`batch::RnsFoldBatch::required_bits`]). An attempt whose bound lies beyond the table
//! is refused, for the caller's own exact path; nothing else is.
//!
//! [`reference::verify`] is the scalar lane. Its verdicts are exact: an admitted attempt is
//! reported as holding exactly where every difference is zero as an integer ([`folds`]).

pub mod batch;
pub mod channels;
pub mod folds;
pub mod primes;
pub mod reference;

pub use batch::{RnsFoldBatch, RnsFoldOutcome, ABSENT};
