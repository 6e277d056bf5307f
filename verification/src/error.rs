//! The error taxonomy. Every fallible operation returns its error
//! immediately; no partial value is ever produced alongside one.

use vstd::prelude::*;

verus! {

/// Why an encode failed.
///
/// The encoder in this crate writes into an in-memory buffer and can
/// represent every supported value, so its own operations never produce
/// these; the taxonomy is part of the capability contract so that other
/// implementations (a fallible sink, a narrower numeric encoding) have a
/// vocabulary to report through.
#[derive(Clone, Copy, Debug, PartialEq, Eq, Structural)]
pub enum EncodeError {
    /// The sink refused the bytes.
    Io,
    /// The value cannot be represented in the configured numeric encoding.
    UnrepresentableValue,
}

/// Why a decode failed.
#[derive(Clone, Copy, Debug, PartialEq, Eq, Structural)]
pub enum DecodeError {
    /// The input ended before the expected bytes were available.
    UnexpectedEnd,
    /// A fixed-arity container's declared or produced element count
    /// disagrees with its statically known arity.
    ArrayLengthMismatch { required: usize, found: usize },
    /// A claim against the decode budget would exceed the remaining
    /// allowance. Distinct from malformed data: the stream asked for more
    /// speculative allocation than the input can justify.
    LimitExceeded,
    /// A length read from the stream cannot be represented in this
    /// platform's addressable size.
    OutsideUsizeRange,
    /// The bytes of a string field are not valid UTF-8.
    Utf8,
    /// A format-specific invariant was violated: a boolean byte other
    /// than 0 or 1, a non-canonical or unknown variable-length integer
    /// marker, or an integer too wide for its target type.
    Other,
}

} // verus!
