//! Builds tag-indexed directories of typed values and lays them out as a
//! byte stream whose offset fields point at the blocks they describe.
//!
//! The layout runs in three phases: measure (sizes of every block), assign
//! (the absolute position of each, in one fixed order) and emit (one forward
//! pass over the same order), so that no written byte is ever revisited.
pub mod ifd;
pub mod layout;
pub mod sink;
pub mod types;
pub mod values;

pub use ifd::{Directory, Entry, FieldData};
pub use layout::{emit_chain, encode, measure_chain, measure_tree, Sizes};
pub use sink::ByteSink;
pub use types::{
    TiffType, ASCII, BYTE, IFD, LONG, RATIONAL, SBYTE, SHORT, SLONG, SRATIONAL, SSHORT, UNDEFINED,
};
pub use values::{StorageMode, TiffTypeValues, ValidationError};
