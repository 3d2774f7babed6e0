//! Codecs for `Cow`: written as what it holds, borrowed or owned alike, and
//! always read back owned.
use vstd::prelude::*;

verus! {

use std::borrow::Cow;
use crate::codec::{Modeled, RoundTrip};
use crate::dec::{BitDecode, BitReader};
use crate::enc::{BitEncode, BitWriter};
use crate::error::CodecError;
use crate::seqs::{models, encode_counted, decode_counted, lemma_counted_round_trip};
use crate::text::{encode_text, decode_text, lemma_text_round_trip};
use vstd::utf8::encode_utf8;

impl<'a> Modeled for Cow<'a, str> {
    type Model = Seq<char>;

    open spec fn model(&self) -> Seq<char> {
        self@
    }
}

impl<'a> BitEncode for Cow<'a, str> {
    open spec fn spec_encode(m: Seq<char>) -> Result<Seq<bool>, CodecError> {
        Ok(encode_text(m))
    }

    fn encode(&self, w: &mut BitWriter) -> (res: Result<(), CodecError>) {
        match self {
            Cow::Borrowed(s) => s.encode(w),
            Cow::Owned(s) => s.encode(w),
        }
    }
}

impl<'a> BitDecode for Cow<'a, str> {
    open spec fn spec_decode(bits: Seq<bool>) -> Result<(Seq<char>, nat), CodecError> {
        decode_text(bits)
    }

    /// What is read back is always owned.
    fn decode(r: &mut BitReader) -> (res: Result<Self, CodecError>)
        ensures
            res matches Ok(c) ==> c is Owned,
    {
        match String::decode(r) {
            Ok(s) => Ok(Cow::Owned(s)),
            Err(e) => Err(e),
        }
    }
}

impl<'a> RoundTrip for Cow<'a, str> {
    /// Fewer than `2^32` bytes of UTF-8.
    open spec fn spec_round_trips(m: Seq<char>) -> bool {
        encode_utf8(m).len() < 0x1_0000_0000
    }

    proof fn lemma_round_trip(x: &Self, rest: Seq<bool>) {
        lemma_text_round_trip(x@, rest);
    }
}

/// The items a `Cow` of a slice holds, borrowed or owned.
pub open spec fn cow_items<'a, T: Clone>(c: &Cow<'a, [T]>) -> Seq<T> {
    match c {
        Cow::Borrowed(b) => b@,
        Cow::Owned(o) => o@,
    }
}

impl<'a, T: Clone + Modeled> Modeled for Cow<'a, [T]> {
    type Model = Seq<T::Model>;

    open spec fn model(&self) -> Seq<T::Model> {
        models(cow_items(self))
    }
}

impl<'a, T: Clone + BitEncode> BitEncode for Cow<'a, [T]> {
    open spec fn spec_encode(m: Seq<T::Model>) -> Result<Seq<bool>, CodecError> {
        encode_counted::<T>(m)
    }

    fn encode(&self, w: &mut BitWriter) -> (res: Result<(), CodecError>) {
        match self {
            Cow::Borrowed(s) => s.encode(w),
            Cow::Owned(v) => v.encode(w),
        }
    }
}

impl<'a, T: Clone + BitDecode> BitDecode for Cow<'a, [T]> {
    open spec fn spec_decode(bits: Seq<bool>) -> Result<(Seq<T::Model>, nat), CodecError> {
        decode_counted::<T>(bits)
    }

    /// What is read back is always owned.
    fn decode(r: &mut BitReader) -> (res: Result<Self, CodecError>)
        ensures
            res matches Ok(c) ==> c is Owned,
    {
        match Vec::<T>::decode(r) {
            Ok(v) => Ok(Cow::Owned(v)),
            Err(e) => Err(e),
        }
    }
}

impl<'a, T: Clone + RoundTrip> RoundTrip for Cow<'a, [T]> {
    /// Fewer than `2^32` items, each of which round-trips.
    open spec fn spec_round_trips(m: Seq<T::Model>) -> bool {
        &&& m.len() < 0x1_0000_0000
        &&& forall|i: int| 0 <= i < m.len() ==> T::spec_round_trips(#[trigger] m[i])
    }

    proof fn lemma_round_trip(x: &Self, rest: Seq<bool>) {
        let items = cow_items(x);
        assert forall|i: int| 0 <= i < items.len() implies T::spec_round_trips(#[trigger] items[i].model()) by {
            assert(x.model()[i] == items[i].model());
        }
        lemma_counted_round_trip::<T>(items, rest);
    }
}

} // verus!
