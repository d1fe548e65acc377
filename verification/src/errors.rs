//! The error kinds that the index surfaces to its callers. Every error is
//! detected before any state is changed, so a failed call leaves the index
//! exactly as it was.

use vstd::prelude::*;

verus! {

/// Why an index operation was refused.
#[derive(Clone, Copy, Debug, PartialEq, Eq, Structural)]
pub enum Error {
    /// A vector's length differs from the index's configured dimension.
    DimensionMismatch,
    /// An explicitly supplied id is already present in the index.
    IdCollision,
    /// A lookup named an id that is not present.
    UnknownId,
    /// A query asked for `k <= 0` results.
    InvalidK,
    /// A query supplied a beam width `ef` smaller than `k`.
    InvalidEf,
    /// A persisted byte stream is truncated or malformed.
    CorruptFormat,
    /// A persisted byte stream carries a format version this library does
    /// not understand.
    UnsupportedVersion,
}

} // verus!
