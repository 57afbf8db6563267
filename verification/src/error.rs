//! Errors of the raw-volume reader.
use vstd::prelude::*;

verus! {

/// Why a parse or a read failed.
#[derive(Debug, Clone, Copy, PartialEq, Eq, Structural)]
pub enum Error {
    /// An underlying device read or seek failed, or the device ran out of
    /// bytes where a structure promised more.
    Io,
    /// A signature, a fixup check or a field value is not valid NTFS.
    FormatInvalid,
    /// The operation is not available on this reader.
    Unsupported,
    /// A position, size or cluster conversion does not fit the addressable
    /// range.
    OutOfRange,
}

impl Error {
    /// A short description, for callers that report failures.
    pub fn message(&self) -> &'static str {
        match self {
            Error::Io => "device read or seek failed",
            Error::FormatInvalid => "on-disk structure is not valid NTFS",
            Error::Unsupported => "operation not supported",
            Error::OutOfRange => "position or size out of range",
        }
    }
}

} // verus!
