//! The mathematical value that a codec writes and reads back, and the law
//! that ties encoding to decoding.
use vstd::prelude::*;

verus! {

use crate::dec::BitDecode;
use crate::enc::BitEncode;

/// A type whose values have a mathematical model, the value that an encoding
/// carries. Decoding yields a value with the same model as the one encoded.
pub trait Modeled {
    type Model;

    /// The model of this value.
    spec fn model(&self) -> Self::Model;
}

/// A type whose encoding decodes back to the value encoded.
pub trait RoundTrip: BitEncode + BitDecode {
    /// Whether the encoding of a value with this model decodes back to it.
    /// For most types this always holds; where the encoding cuts a length to
    /// 32 bits, it holds for lengths below `2^32`.
    spec fn spec_round_trips(m: Self::Model) -> bool;

    /// Decoding the encoding of `x`, whatever bits follow it, gives back
    /// `x`'s model and consumes exactly the encoding.
    proof fn lemma_round_trip(x: &Self, rest: Seq<bool>)
        requires
            Self::spec_round_trips(x.model()),
        ensures
            Self::spec_encode(x.model()) is Ok,
            Self::spec_decode(Self::spec_encode(x.model())->Ok_0 + rest) == Ok::<(Self::Model, nat), crate::error::CodecError>(
                (x.model(), Self::spec_encode(x.model())->Ok_0.len()),
            ),
    ;
}

} // verus!
