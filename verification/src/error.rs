//! The ways in which encoding or decoding a container can fail.

use vstd::prelude::*;

verus! {

/// Why an encode or a decode was abandoned. Every failure ends the whole
/// operation: nothing is returned besides the error.
#[derive(Debug, PartialEq, Eq)]
#[allow(inconsistent_fields)]
pub enum AssetError {
    /// The source ended before a fixed-size field or a string was complete.
    Truncated,
    /// The first byte is not the container's magic byte.
    InvalidMagic { expected: u8, got: u8 },
    /// The container was written in a format version other than the one understood here.
    VersionMismatch { expected: u32, got: u32 },
    /// A string of the string table is not well-formed UTF-8.
    InvalidUtf8,
    /// A record refers to a string that the table of `len` strings does not hold.
    StringIndexOutOfRange { index: usize, len: usize },
    /// A string was looked up in a table builder that it was never added to.
    StringNotFound { text: String },
}

} // verus!
