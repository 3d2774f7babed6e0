//! Codecs for `Wrapping` and `NonZero`: each written as the integer it
//! holds; a `NonZero` refuses to decode a zero.
use vstd::prelude::*;

verus! {

use std::num::Wrapping;
use crate::codec::{Modeled, RoundTrip};
use crate::dec::{BitDecode, BitReader};
use crate::enc::{BitEncode, BitWriter};
use crate::error::CodecError;

/// `std::num::Wrapping`, whose one field is public.
#[verifier::external_type_specification]
#[verifier::reject_recursive_types(T)]
pub struct ExWrapping<T>(Wrapping<T>);

impl<T: Modeled> Modeled for Wrapping<T> {
    type Model = T::Model;

    open spec fn model(&self) -> T::Model {
        self.0.model()
    }
}

impl<T: BitEncode> BitEncode for Wrapping<T> {
    open spec fn spec_encode(m: T::Model) -> Result<Seq<bool>, CodecError> {
        T::spec_encode(m)
    }

    fn encode(&self, w: &mut BitWriter) -> (res: Result<(), CodecError>) {
        self.0.encode(w)
    }
}

impl<T: BitDecode> BitDecode for Wrapping<T> {
    open spec fn spec_decode(bits: Seq<bool>) -> Result<(T::Model, nat), CodecError> {
        T::spec_decode(bits)
    }

    fn decode(r: &mut BitReader) -> (res: Result<Self, CodecError>) {
        match T::decode(r) {
            Ok(v) => Ok(Wrapping(v)),
            Err(e) => Err(e),
        }
    }
}

impl<T: RoundTrip> RoundTrip for Wrapping<T> {
    open spec fn spec_round_trips(m: T::Model) -> bool {
        T::spec_round_trips(m)
    }

    proof fn lemma_round_trip(x: &Self, rest: Seq<bool>) {
        T::lemma_round_trip(&x.0, rest);
    }
}

/// An integer type that can tell whether a value is zero.
pub trait ZeroTest: Modeled + Sized {
    /// Whether the value with this model is zero.
    spec fn spec_is_zero(m: Self::Model) -> bool;

    /// Whether this value is zero.
    fn is_zero(&self) -> (r: bool)
        ensures
            r == Self::spec_is_zero(self.model()),
    ;
}

impl ZeroTest for u8 {
    open spec fn spec_is_zero(m: u8) -> bool {
        m == 0
    }

    fn is_zero(&self) -> (r: bool) {
        *self == 0
    }
}

impl ZeroTest for u16 {
    open spec fn spec_is_zero(m: u16) -> bool {
        m == 0
    }

    fn is_zero(&self) -> (r: bool) {
        *self == 0
    }
}

impl ZeroTest for u32 {
    open spec fn spec_is_zero(m: u32) -> bool {
        m == 0
    }

    fn is_zero(&self) -> (r: bool) {
        *self == 0
    }
}

impl ZeroTest for u64 {
    open spec fn spec_is_zero(m: u64) -> bool {
        m == 0
    }

    fn is_zero(&self) -> (r: bool) {
        *self == 0
    }
}

impl ZeroTest for u128 {
    open spec fn spec_is_zero(m: u128) -> bool {
        m == 0
    }

    fn is_zero(&self) -> (r: bool) {
        *self == 0
    }
}

impl ZeroTest for i8 {
    open spec fn spec_is_zero(m: i8) -> bool {
        m == 0
    }

    fn is_zero(&self) -> (r: bool) {
        *self == 0
    }
}

impl ZeroTest for i16 {
    open spec fn spec_is_zero(m: i16) -> bool {
        m == 0
    }

    fn is_zero(&self) -> (r: bool) {
        *self == 0
    }
}

impl ZeroTest for i32 {
    open spec fn spec_is_zero(m: i32) -> bool {
        m == 0
    }

    fn is_zero(&self) -> (r: bool) {
        *self == 0
    }
}

impl ZeroTest for i64 {
    open spec fn spec_is_zero(m: i64) -> bool {
        m == 0
    }

    fn is_zero(&self) -> (r: bool) {
        *self == 0
    }
}

impl ZeroTest for i128 {
    open spec fn spec_is_zero(m: i128) -> bool {
        m == 0
    }

    fn is_zero(&self) -> (r: bool) {
        *self == 0
    }
}

/// An integer that is not zero.
#[derive(Debug, PartialEq, Eq)]
pub struct NonZero<T: ZeroTest> {
    value: T,
}

impl<T: ZeroTest> NonZero<T> {
    #[verifier::type_invariant]
    spec fn inv(self) -> bool {
        !T::spec_is_zero(self.value.model())
    }

    /// The integer held.
    pub closed spec fn spec_get(self) -> T {
        self.value
    }

    /// `value` as a `NonZero`, or `None` where it is zero.
    pub fn new(value: T) -> (r: Option<Self>)
        ensures
            r is Some <==> !T::spec_is_zero(value.model()),
            r matches Some(n) ==> n.spec_get() == value,
    {
        if value.is_zero() {
            None
        } else {
            Some(NonZero { value })
        }
    }

    /// The integer held, which is not zero.
    pub fn get(&self) -> (v: &T)
        ensures
            *v == self.spec_get(),
            !T::spec_is_zero(v.model()),
    {
        proof {
            use_type_invariant(self);
        }
        &self.value
    }
}

impl<T: ZeroTest> Modeled for NonZero<T> {
    type Model = T::Model;

    open spec fn model(&self) -> T::Model {
        self.spec_get().model()
    }
}

impl<T: ZeroTest + BitEncode> BitEncode for NonZero<T> {
    /// The integer held.
    open spec fn spec_encode(m: T::Model) -> Result<Seq<bool>, CodecError> {
        T::spec_encode(m)
    }

    fn encode(&self, w: &mut BitWriter) -> (res: Result<(), CodecError>) {
        self.get().encode(w)
    }
}

impl<T: ZeroTest + BitDecode> BitDecode for NonZero<T> {
    /// The integer, refused where it is zero.
    open spec fn spec_decode(bits: Seq<bool>) -> Result<(T::Model, nat), CodecError> {
        match T::spec_decode(bits) {
            Ok((m, k)) => if T::spec_is_zero(m) {
                Err(CodecError::ZeroValue)
            } else {
                Ok((m, k))
            },
            Err(e) => Err(e),
        }
    }

    fn decode(r: &mut BitReader) -> (res: Result<Self, CodecError>) {
        let ghost start = r.remaining();
        let v = T::decode(r)?;
        match NonZero::new(v) {
            Some(n) => Ok(n),
            None => {
                proof {
                    let k = T::spec_decode(start)->Ok_0.1;
                    crate::dec::lemma_consumed_skip(start, k as int);
                }
                Err(CodecError::ZeroValue)
            },
        }
    }
}

impl<T: ZeroTest + RoundTrip> RoundTrip for NonZero<T> {
    /// The integer round-trips and is not zero, as every `NonZero` holds.
    open spec fn spec_round_trips(m: T::Model) -> bool {
        &&& T::spec_round_trips(m)
        &&& !T::spec_is_zero(m)
    }

    proof fn lemma_round_trip(x: &Self, rest: Seq<bool>) {
        T::lemma_round_trip(&x.spec_get(), rest);
    }
}

} // verus!
