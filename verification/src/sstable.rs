//! On-disk SSTable format layer: the variable-length integer codec,
//! block handles, and the fixed-size file footer.

pub mod format;

use vstd::prelude::*;

verus! {

/// Size in bytes of the fixed footer at the end of every SSTable file.
pub const FOOTER_SIZE: usize = 48;

/// Size in bytes of the magic number at the end of the footer.
pub const MAGIC_SIZE: usize = 8;

/// Magic number identifying the SSTable file format, stored big-endian
/// in the last eight bytes of every SSTable file.
pub const MAGIC: u64 = 0xB00C_C0FF_EE00_0001;

/// Errors raised by the SSTable format layer.
#[derive(Debug, PartialEq)]
pub enum SSTableError {
    /// A varint or footer could not be decoded from the given bytes.
    Decode(String),
    /// A structural invariant of the format was violated.
    Corrupted(String),
}

} // verus!
