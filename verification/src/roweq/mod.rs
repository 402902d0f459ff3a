//! `roweq`: batched exact sparse-row membership on limb planes.
//!
//! An attempt holds query rows and pool rows. A lane decides whether every query row
//! equals some pool row. A row is a sparse vector of columns and values; two rows are
//! equal where they have the same length and, place by place, the same column and the
//! same value. Values are compared structurally: sign, numerator magnitude and
//! denominator id. Equality of representations is the predicate itself, so nothing is ever
//! refused.
//!
//! Within one attempt the caller gives equal denominators equal ids, and different
//! denominators different ids.
//!
//! [`reference::verify`] is the scalar lane. Its verdicts are equality of sparse vectors
//! ([`rows`]).

pub mod batch;
pub mod reference;
pub mod rows;

pub use batch::{RowEqBatch, RowEqError, RowEqOutcome};
