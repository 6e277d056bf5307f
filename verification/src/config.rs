//! The immutable parameters an encoder and a decoder must agree on.

use vstd::prelude::*;

verus! {

/// How integers (and container length prefixes) are laid out on the wire.
#[derive(Clone, Copy, Debug, PartialEq, Eq, Structural)]
pub enum IntEncoding {
    /// Every integer occupies its full fixed width.
    Fixed,
    /// Small values occupy a single byte; larger ones a marker byte
    /// followed by a wider fixed-width field.
    Varint,
}

/// Byte order of multi-byte integer fields.
#[derive(Clone, Copy, Debug, PartialEq, Eq, Structural)]
pub enum Endianness {
    /// Least significant byte first.
    Little,
    /// Most significant byte first.
    Big,
}

/// An optional cap on the decode budget (claimed bytes).
#[derive(Clone, Copy, Debug, PartialEq, Eq, Structural)]
pub enum SizeLimit {
    /// The budget is bounded only by the input's own length.
    Unlimited,
    /// The budget never starts above this many bytes.
    Bounded(usize),
}

/// Describes the numeric encoding strategy, the byte order and the
/// optional total-size limit. A `Configuration` is immutable for the
/// duration of one encode or decode operation; both sides of a wire
/// exchange must use the same one to interoperate.
#[derive(Clone, Copy, Debug, PartialEq, Eq, Structural)]
pub struct Configuration {
    pub int_encoding: IntEncoding,
    pub endianness: Endianness,
    pub size_limit: SizeLimit,
}

impl Configuration {
    /// Fixed-width little-endian integers, no size limit.
    pub fn standard() -> (c: Configuration)
        ensures
            c == (Configuration {
                int_encoding: IntEncoding::Fixed,
                endianness: Endianness::Little,
                size_limit: SizeLimit::Unlimited,
            }),
    {
        Configuration {
            int_encoding: IntEncoding::Fixed,
            endianness: Endianness::Little,
            size_limit: SizeLimit::Unlimited,
        }
    }

    /// The same configuration with variable-length integer encoding.
    pub fn with_variable_int_encoding(self) -> (c: Configuration)
        ensures
            c == (Configuration { int_encoding: IntEncoding::Varint, ..self }),
    {
        Configuration { int_encoding: IntEncoding::Varint, ..self }
    }

    /// The same configuration with fixed-width integer encoding.
    pub fn with_fixed_int_encoding(self) -> (c: Configuration)
        ensures
            c == (Configuration { int_encoding: IntEncoding::Fixed, ..self }),
    {
        Configuration { int_encoding: IntEncoding::Fixed, ..self }
    }

    /// The same configuration with big-endian byte order.
    pub fn with_big_endian(self) -> (c: Configuration)
        ensures
            c == (Configuration { endianness: Endianness::Big, ..self }),
    {
        Configuration { endianness: Endianness::Big, ..self }
    }

    /// The same configuration with little-endian byte order.
    pub fn with_little_endian(self) -> (c: Configuration)
        ensures
            c == (Configuration { endianness: Endianness::Little, ..self }),
    {
        Configuration { endianness: Endianness::Little, ..self }
    }

    /// The same configuration with the decode budget capped at `n` bytes.
    pub fn with_limit(self, n: usize) -> (c: Configuration)
        ensures
            c == (Configuration { size_limit: SizeLimit::Bounded(n), ..self }),
    {
        Configuration { size_limit: SizeLimit::Bounded(n), ..self }
    }

    /// The same configuration with no decode budget cap beyond the
    /// input's own length.
    pub fn with_no_limit(self) -> (c: Configuration)
        ensures
            c == (Configuration { size_limit: SizeLimit::Unlimited, ..self }),
    {
        Configuration { size_limit: SizeLimit::Unlimited, ..self }
    }
}

} // verus!
