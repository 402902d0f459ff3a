//! `hypernet`: computation graphs as data.
//!
//! A graph is a table of wire types, a pool of simplicial complexes, a list of applications of
//! ten primitive boxes, and an interface. This module holds the exact scalars, the graph, its
//! typed construction, its well-formedness and its canonical byte format with the content
//! digest.
//!
//! - [`scalar`]: integers and rationals of any size; [`cbor`]: how they travel;
//!   [`log2`]: how wide their denominators are.
//! - [`types`], [`app`], [`simplex`], [`graph`]: tensor types, boxes, complexes, the graph.
//!   A complex without violations is a simplicial complex ([`simplicial`]).
//! - [`builder`]: typed construction. A call appends the box it is named after and hands back
//!   that box's wires ([`builder_boxes`]); a graph that is built is well formed
//!   ([`builder_laws`]).
//! - [`wf`]: the faults of a graph, each with its place. There are none exactly where the
//!   graph is well formed ([`wellformed`]), and each is reported exactly where what it says
//!   is true ([`reports`]). What the types of a box's wires have to do with one another is in
//!   [`typing`].
//! - [`canon`]: the canonical bytes. Reading bytes and writing the graph gives the same bytes;
//!   writing a graph and reading the bytes gives the same graph, its simplices in order.
//!
//! Every type has a model that the contracts speak of: its view.

pub mod app;
pub mod bigint;
pub mod builder;
pub mod builder_boxes;
pub mod builder_laws;
pub mod canon;
pub mod cbor;
pub mod faults;
pub mod graph;
pub mod int_bytes;
pub mod log2;
pub mod reports;
pub mod scalar;
pub mod simplex;
pub mod simplicial;
pub mod types;
pub mod typing;
pub mod wellformed;
pub mod wf;

pub use app::{App, ConstPayload, Wire};
pub use builder::{BuildRefusal, HypernetBuilder};
pub use canon::{CanonRefusal, HypernetDigest, MAGIC};
pub use graph::Hypernet;
pub use scalar::{WitInt, WitRat};
pub use simplex::{SimpC, SimpCViolation, VSet};
pub use types::{Dtype, Ext, Kind, Sign, TensorType};
pub use wf::{TypeViolation, Violation};
