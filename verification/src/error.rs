//! Errors of the bit reader and writer and of the codecs built on them.
use vstd::prelude::*;

verus! {

/// The broad class of an error, as `std::io::ErrorKind` would give it.
#[derive(Clone, Copy, Debug, PartialEq, Eq, Structural)]
pub enum ErrorKind {
    /// The caller asked for something impossible, such as a field of zero bits.
    InvalidInput,
    /// The bits read do not form a valid value.
    InvalidData,
    /// The input ran out before the value was complete.
    UnexpectedEof,
}

/// What went wrong while encoding or decoding.
#[derive(Clone, Copy, Debug, PartialEq, Eq, Structural)]
pub enum CodecError {
    /// A bit count of zero, or one wider than the integer type.
    BadBitCount,
    /// The input ended before the value did.
    UnexpectedEof,
    /// A variable-length integer had a sixth group of seven bits.
    VarLenTooLong,
    /// A variable-length integer's fifth group held bits above the 32nd.
    VarLenOverflow,
    /// A sequence was too long for its length header.
    LengthOverflow,
    /// A decoded length header does not fit in `usize`.
    LengthTooLarge,
    /// The bytes of a string are not UTF-8.
    InvalidUtf8,
    /// A decoded code point is not a `char`.
    InvalidChar,
    /// A decoded duration has a billion nanoseconds or more.
    InvalidNanos,
    /// A decoded value that must not be zero is zero.
    ZeroValue,
    /// A decoded integer does not fit the platform's `usize` or `isize`.
    IntOverflow,
    /// An enum discriminant names no variant.
    UnknownDiscriminant(u32),
}

impl CodecError {
    /// The class of this error.
    pub fn kind(&self) -> (k: ErrorKind)
        ensures
            k == (match *self {
                CodecError::BadBitCount | CodecError::LengthOverflow => ErrorKind::InvalidInput,
                CodecError::UnexpectedEof => ErrorKind::UnexpectedEof,
                _ => ErrorKind::InvalidData,
            }),
    {
        match self {
            CodecError::BadBitCount | CodecError::LengthOverflow => ErrorKind::InvalidInput,
            CodecError::UnexpectedEof => ErrorKind::UnexpectedEof,
            _ => ErrorKind::InvalidData,
        }
    }
}

} // verus!
