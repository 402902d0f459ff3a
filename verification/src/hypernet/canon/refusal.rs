//! The refusals of the codec.

use super::super::app::Wire;
use super::layout;
use vstd::prelude::*;

verus! {

/// Why a graph cannot be written, or bytes cannot be read.
#[derive(Debug, Clone, PartialEq, Eq)]
pub enum CanonRefusal {
    /// A wire has no type.
    EncodeWireOutOfRange {
        /// The application.
        app: u32,
        /// The wire.
        wire: Wire,
        /// The number of typed wires.
        table_len: u32,
    },
    /// A rational is not in lowest terms.
    EncodeNonCanonicalRational,
    /// The bytes end too early.
    Truncated {
        /// Where.
        offset: usize,
        /// How many bytes are needed.
        needed: usize,
        /// How many remain.
        available: usize,
        /// What they are needed for.
        what: &'static str,
    },
    /// The bytes do not start with the magic.
    BadMagic {
        /// What they start with.
        got: Vec<u8>,
    },
    /// A byte has no meaning.
    UnknownByte {
        /// Where.
        offset: usize,
        /// Its role.
        what: &'static str,
        /// The byte.
        got: u8,
    },
    /// A tag names no box.
    UnknownTag {
        /// Where the application starts.
        offset: usize,
        /// The tag.
        tag: u8,
    },
    /// An application header is not the canonical one.
    BadAppHeader {
        /// Where the application starts.
        offset: usize,
        /// The rounding byte.
        round: u8,
        /// The padding.
        pad: u16,
    },
    /// A rational is not spelled canonically.
    NonCanonicalRational {
        /// Where the rational starts.
        offset: usize,
        /// What is wrong.
        why: &'static str,
    },
    /// A bitset has members that do not exist.
    BitsetOverflow {
        /// Where the bitset starts.
        offset: usize,
        /// The number of members there can be.
        n: u32,
    },
    /// Simplices are not in canonical order.
    NonCanonicalSimplexOrder {
        /// Where the simplex starts that is out of order.
        offset: usize,
    },
    /// A wire has no type.
    DecodeWireOutOfRange {
        /// Where the wire is named.
        offset: usize,
        /// The wire.
        wire: Wire,
        /// The number of typed wires.
        table_len: u32,
    },
    /// A repeated field disagrees with the wire-type table.
    RedundantFieldMismatch {
        /// Where the field is.
        offset: usize,
        /// Which field.
        what: &'static str,
    },
    /// Bytes follow a complete graph.
    TrailingBytes {
        /// How many.
        got: usize,
    },
    /// A count cannot be honest.
    LengthOverflow {
        /// Where the counted items start.
        offset: usize,
        /// The count.
        got: u64,
        /// What is counted.
        what: &'static str,
    },
}

impl View for CanonRefusal {
    type V = layout::CanonFault;

    open spec fn view(&self) -> layout::CanonFault {
        match self {
            CanonRefusal::EncodeWireOutOfRange { app, wire, table_len } => {
                layout::CanonFault::EncodeWireOutOfRange {
                    app: *app,
                    wire: *wire,
                    table_len: *table_len,
                }
            },
            CanonRefusal::EncodeNonCanonicalRational => {
                layout::CanonFault::EncodeNonCanonicalRational
            },
            CanonRefusal::Truncated { offset, needed, available, what } => {
                layout::CanonFault::Truncated {
                    offset: *offset as int,
                    needed: *needed as int,
                    available: *available as int,
                    what: *what,
                }
            },
            CanonRefusal::BadMagic { got } => layout::CanonFault::BadMagic { got: got@ },
            CanonRefusal::UnknownByte { offset, what, got } => layout::CanonFault::UnknownByte {
                offset: *offset as int,
                what: *what,
                got: *got,
            },
            CanonRefusal::UnknownTag { offset, tag } => layout::CanonFault::UnknownTag {
                offset: *offset as int,
                tag: *tag,
            },
            CanonRefusal::BadAppHeader { offset, round, pad } => layout::CanonFault::BadAppHeader {
                offset: *offset as int,
                round: *round,
                pad: *pad,
            },
            CanonRefusal::NonCanonicalRational { offset, why } => {
                layout::CanonFault::NonCanonicalRational { offset: *offset as int, why: *why }
            },
            CanonRefusal::BitsetOverflow { offset, n } => layout::CanonFault::BitsetOverflow {
                offset: *offset as int,
                n: *n,
            },
            CanonRefusal::NonCanonicalSimplexOrder { offset } => {
                layout::CanonFault::NonCanonicalSimplexOrder { offset: *offset as int }
            },
            CanonRefusal::DecodeWireOutOfRange { offset, wire, table_len } => {
                layout::CanonFault::DecodeWireOutOfRange {
                    offset: *offset as int,
                    wire: *wire,
                    table_len: *table_len,
                }
            },
            CanonRefusal::RedundantFieldMismatch { offset, what } => {
                layout::CanonFault::RedundantFieldMismatch { offset: *offset as int, what: *what }
            },
            CanonRefusal::TrailingBytes { got } => layout::CanonFault::TrailingBytes {
                got: *got as int,
            },
            CanonRefusal::LengthOverflow { offset, got, what } => {
                layout::CanonFault::LengthOverflow {
                    offset: *offset as int,
                    got: *got,
                    what: *what,
                }
            },
        }
    }
}

} // verus!
