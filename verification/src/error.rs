//! The failures that the library reports.

use vstd::prelude::*;

verus! {

/// Why an operation on an archive failed.
#[derive(Clone, Copy, Debug, PartialEq, Eq, Structural)]
pub enum Error {
    /// A byte stream ended before the requested bytes were read.
    UnexpectedEof,
    /// A seek aimed before the start or past the end of a byte stream.
    InvalidSeek,
    /// An offset lies beyond the range that the cipher's keystream covers.
    KeystreamExhausted,
    /// The bytes do not begin with the archive marker.
    NotAnArchive,
    /// The header is truncated, holds invalid UTF-8 or impossible lengths.
    MalformedHeader,
    /// A count, a length or a size exceeds what the format can hold.
    TooLarge,
    /// Two sources share an id, or one path occurs twice in a source.
    DuplicateEntry,
    /// The file contents handed over do not match the index.
    ContentsMismatch,
    /// No entry of the archive matches the request.
    NotFound,
    /// The system's random number source failed.
    RandomUnavailable,
    /// The text is no base64, or stands for a key that is not 32 bytes long.
    InvalidKey,
}

} // verus!
