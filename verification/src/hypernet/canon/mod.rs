//! The canonical byte format and the content digest.
//!
//! [`layout`] writes the format down twice, as a spelling of graphs and as a reading of bytes.
//! [`encode`] and [`decode`] compute the two, with [`writers`] and [`readers`] for the parts.
//!
//! The reading is strict, so bytes that are read are the bytes that the graph is written as
//! ([`faithful`]), and no accepted bytes begin others ([`prefix`]). A graph that the format
//! can express is read back from its bytes, the simplices of each complex in canonical order
//! ([`complete`], [`order`]), which is why the order they are listed in is no part of the
//! bytes ([`reorder`]). Names of wires and hints of complexes are no part of them either.
//!
//! Which field stands where, byte by byte, is in [`fields`], [`places`] and [`sections`] for
//! writing and in [`reading`] for reading; what the order of simplices is, in [`ranking`];
//! what a refusal says, in [`refused`] for writing and in [`complaints`] for reading.
//!
//! [`digest`] is the SHA-256 digest of the canonical bytes.

pub mod bytes;
pub mod complaints;
pub mod complete;
pub mod decode;
pub mod digest;
pub mod encode;
pub mod faithful;
pub mod fields;
pub mod layout;
pub mod order;
pub mod places;
pub mod prefix;
pub mod ranking;
pub mod readers;
pub mod reading;
pub mod refusal;
pub mod refused;
pub mod reorder;
pub mod sections;
pub mod writers;

pub use digest::HypernetDigest;
pub use layout::MAGIC;
pub use refusal::CanonRefusal;
