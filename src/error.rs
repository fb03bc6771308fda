//! The ways a decode can fail.

use vstd::prelude::*;

verus! {

/// Why a data stream could not be decoded. Any failure aborts the whole
/// decode: no partial output is returned beside it.
#[derive(Clone, Copy, Debug, PartialEq, Eq, Structural)]
pub enum DecodeError {
    /// A segment was met while the symbol version is outside 1..=40.
    UnsupportedVersion(u32),
    /// A read of this many bits ran past the end of the buffer.
    InsufficientBits(u8),
    /// A 4-bit mode tag other than terminator, numeric, alphanumeric or byte.
    UnsupportedMode(u8),
    /// An alphanumeric code named a symbol index above 44.
    InvalidAlphanumericValue(u16),
}

} // verus!
