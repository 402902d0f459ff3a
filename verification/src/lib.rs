//! Exact kernels: batched decision procedures over integers and rationals that never round,
//! and the computation graphs that cite them.
//!
//! - [`nullspace`]: nullspaces of sparse integer matrices modulo a prime, lifted to the
//!   integers and verified there.
//! - [`rnsfold`]: linear-combination equality over residue channels.
//! - [`roweq`]: sparse-row membership.
//! - [`sweep`]: sign scans and extrema of exact samples.
//! - [`cuda`]: the device lanes of `rnsfold` and `roweq`, up to the device.
//! - [`hypernet`]: computation graphs, their well-formedness, canonical bytes and digest.
//!
//! A family has one scalar lane whose contract is its meaning; every other lane is held to the
//! same contract. [`nt`], [`linalg`], [`rowspace`], [`mont`], [`limbs`] and [`planes`] are the
//! mathematics that they share, [`text`] the texts of numbers and refusals.

pub mod cuda;
pub mod hypernet;
pub mod limbs;
pub mod linalg;
pub mod mont;
pub mod nt;
pub mod nullspace;
mod par;
pub mod planes;
pub mod rnsfold;
pub mod roweq;
pub mod rowspace;
pub mod sweep;
pub mod text;
