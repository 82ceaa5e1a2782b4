//! The error taxonomy of the decoder.
//!
//! Every failure aborts the whole decode; there is no partial-result
//! recovery and no retry. Structural failures get a variant of their own,
//! while truncated input, an invalid string encoding and decompression
//! corruption surface as a wrapped I/O kind.

use vstd::prelude::*;

verus! {

/// The low-level failure wrapped by [`Error::Io`].
#[derive(Clone, Copy, Debug, PartialEq, Eq, Structural)]
pub enum IoKind {
    /// The input ended before the value it promised was complete.
    Eof,
    /// A string payload was neither valid UTF-8 nor in the tolerated
    /// modified encoding.
    InvalidUtf8,
    /// A compressed container could not be inflated.
    Corrupt,
}

/// Why a decode failed.
#[derive(Clone, Copy, Debug, PartialEq, Eq, Structural)]
pub enum Error {
    /// An underlying read or decompression failure.
    Io(IoKind),
    /// The root tag of the input was not Compound (0x0a).
    NoRootCompound,
    /// An unrecognized tag byte where a valid tag was expected.
    InvalidTypeId(u8),
    /// A narrowly-typed request found a different wire tag:
    /// `TagMismatch(actual, expected)`.
    TagMismatch(u8, u8),
    /// A boolean was requested and the tag matched, but the byte
    /// was neither 0 nor 1.
    NonBooleanByte(i8),
    /// The structural nesting of the input passed the decoder's depth
    /// limit; the decode is aborted rather than risking the call stack.
    DepthExceeded,
}

} // verus!
