//! The layout rules of codecs for user structs and enums: a field may be
//! written as a fixed number of bits, and an enum writes the index of its
//! variant as a fixed number of bits before the variant's fields.
use vstd::prelude::*;

verus! {

use crate::bits::value_of;
use crate::dec::BitReader;
use crate::error::CodecError;

/// The widest field that can be written as a bit field.
pub const MAX_FIELD_BITS: u32 = 128;

/// The widest variant index.
pub const MAX_DISC_BITS: u32 = 32;

/// The width of a variant index when none is declared.
pub const DEFAULT_DISC_BITS: u32 = 8;

/// A declared width that the layout rules refuse.
#[derive(Clone, Copy, Debug, PartialEq, Eq, Structural)]
pub enum LayoutError {
    /// A field's width is not in `1..=128`.
    FieldBits(u32),
    /// A variant index's width is not in `1..=32`.
    DiscBits(u32),
}

/// The width of a field: none declared means the field is written through
/// its own codec; a declared width must lie in `1..=128`.
pub fn field_bit_count(declared: Option<u32>) -> (r: Result<Option<u32>, LayoutError>)
    ensures
        match declared {
            None => r == Ok::<Option<u32>, LayoutError>(None),
            Some(n) => if 1 <= n <= MAX_FIELD_BITS {
                r == Ok::<Option<u32>, LayoutError>(Some(n))
            } else {
                r == Err::<Option<u32>, LayoutError>(LayoutError::FieldBits(n))
            },
        },
{
    match declared {
        None => Ok(None),
        Some(n) => {
            if n == 0 || n > MAX_FIELD_BITS {
                Err(LayoutError::FieldBits(n))
            } else {
                Ok(Some(n))
            }
        },
    }
}

/// The width of an enum's variant index: eight when none is declared; a
/// declared width must lie in `1..=32`.
pub fn disc_bit_count(declared: Option<u32>) -> (r: Result<u32, LayoutError>)
    ensures
        match declared {
            None => r == Ok::<u32, LayoutError>(DEFAULT_DISC_BITS),
            Some(n) => if 1 <= n <= MAX_DISC_BITS {
                r == Ok::<u32, LayoutError>(n)
            } else {
                r == Err::<u32, LayoutError>(LayoutError::DiscBits(n))
            },
        },
{
    match declared {
        None => Ok(DEFAULT_DISC_BITS),
        Some(n) => {
            if n == 0 || n > MAX_DISC_BITS {
                Err(LayoutError::DiscBits(n))
            } else {
                Ok(n)
            }
        },
    }
}

/// Reads the index of an enum's variant, `disc_bits` wide, and checks that
/// it names one of the `variants` variants.
pub fn read_variant_index(r: &mut BitReader, disc_bits: u32, variants: u32) -> (res: Result<u32, CodecError>)
    requires
        1 <= disc_bits <= MAX_DISC_BITS,
    ensures
        disc_bits <= old(r).remaining().len() ==> {
            let d = value_of(old(r).remaining().take(disc_bits as int));
            &&& final(r).remaining() == old(r).remaining().skip(disc_bits as int)
            &&& d < variants ==> res == Ok::<u32, CodecError>(d as u32)
            &&& d >= variants ==> res == Err::<u32, CodecError>(CodecError::UnknownDiscriminant(d as u32))
        },
        disc_bits > old(r).remaining().len() ==> {
            &&& res == Err::<u32, CodecError>(CodecError::UnexpectedEof)
            &&& final(r).remaining() == Seq::<bool>::empty()
        },
{
    proof {
        crate::primitive::lemma_bit_widths();
    }
    let d: u32 = r.read_bits(disc_bits)?;
    if d < variants {
        Ok(d)
    } else {
        Err(CodecError::UnknownDiscriminant(d))
    }
}

} // verus!
