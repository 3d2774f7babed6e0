//! Codecs for `Option`, `Result`, the unit type, `PhantomData` and the
//! pointer types. An `Option` or `Result` writes one tag bit, set for `Some`
//! and `Ok`; a pointer writes what it points to.
use vstd::prelude::*;

verus! {

use std::marker::PhantomData;
use std::rc::Rc;
use std::sync::Arc;
use crate::codec::{Modeled, RoundTrip};
use crate::dec::{BitDecode, BitReader};
use crate::enc::{BitEncode, BitWriter};
use crate::error::CodecError;
use crate::seqs::{models, lemma_counted_round_trip};
use crate::text::lemma_text_round_trip;
use vstd::utf8::encode_utf8;

/// Prefixes a tag bit to an encoding.
pub open spec fn tagged(tag: bool, body: Result<Seq<bool>, CodecError>) -> Result<Seq<bool>, CodecError> {
    match body {
        Ok(b) => Ok(seq![tag] + b),
        Err(e) => Err(e),
    }
}

/// Decoding what follows a tag bit, one bit further on.
pub open spec fn after_tag<M>(r: Result<(M, nat), CodecError>) -> Result<(M, nat), CodecError> {
    match r {
        Ok((m, k)) => Ok((m, k + 1)),
        Err(e) => Err(e),
    }
}

/// Decoding the encoding of a value after a tag bit gives the tag and the value back.
proof fn lemma_tag_split(tag: bool, b: Seq<bool>, rest: Seq<bool>)
    ensures
        (seq![tag] + b + rest).len() >= 1,
        (seq![tag] + b + rest)[0] == tag,
        (seq![tag] + b + rest).skip(1) == b + rest,
{
    assert((seq![tag] + b + rest).skip(1) =~= b + rest);
}

impl<T: Modeled> Modeled for Option<T> {
    type Model = Option<T::Model>;

    open spec fn model(&self) -> Option<T::Model> {
        match self {
            Some(x) => Some(x.model()),
            None => None,
        }
    }
}

impl<T: BitEncode> BitEncode for Option<T> {
    open spec fn spec_encode(m: Option<T::Model>) -> Result<Seq<bool>, CodecError> {
        match m {
            Some(x) => tagged(true, T::spec_encode(x)),
            None => Ok(seq![false]),
        }
    }

    fn encode(&self, w: &mut BitWriter) -> (res: Result<(), CodecError>) {
        let ghost start = w.bits();
        w.write(&self.is_some())?;
        if let Some(v) = self {
            let ghost mid = w.bits();
            let r = v.encode(w);
            proof {
                if let Ok(b) = T::spec_encode(v.model()) {
                    assert(mid + b =~= start + (seq![true] + b));
                } else {
                    assert(start.is_prefix_of(mid));
                }
            }
            r?;
        }
        Ok(())
    }
}

impl<T: BitDecode> BitDecode for Option<T> {
    open spec fn spec_decode(bits: Seq<bool>) -> Result<(Option<T::Model>, nat), CodecError> {
        if bits.len() < 1 {
            Err(CodecError::UnexpectedEof)
        } else if bits[0] {
            match T::spec_decode(bits.skip(1)) {
                Ok((m, k)) => Ok((Some(m), k + 1)),
                Err(e) => Err(e),
            }
        } else {
            Ok((None, 1))
        }
    }

    fn decode(r: &mut BitReader) -> (res: Result<Self, CodecError>) {
        let ghost start = r.remaining();
        if r.read::<bool>()? {
            let ghost mid = r.remaining();
            let res = T::decode(r);
            proof {
                assert(mid == start.skip(1));
                if let Ok((m, k)) = T::spec_decode(mid) {
                    assert(mid.skip(k as int) =~= start.skip(k + 1 as int));
                } else {
                    assert(r.remaining() =~= start.skip(start.len() - r.remaining().len()));
                }
            }
            match res {
                Ok(v) => Ok(Some(v)),
                Err(e) => Err(e),
            }
        } else {
            Ok(None)
        }
    }
}

impl<T: RoundTrip> RoundTrip for Option<T> {
    open spec fn spec_round_trips(m: Option<T::Model>) -> bool {
        match m {
            Some(x) => T::spec_round_trips(x),
            None => true,
        }
    }

    proof fn lemma_round_trip(x: &Self, rest: Seq<bool>) {
        match x {
            Some(v) => {
                T::lemma_round_trip(v, rest);
                lemma_tag_split(true, T::spec_encode(v.model())->Ok_0, rest);
                assert(seq![true] + T::spec_encode(v.model())->Ok_0 + rest
                    =~= (seq![true] + T::spec_encode(v.model())->Ok_0) + rest);
            },
            None => {
                lemma_tag_split(false, Seq::<bool>::empty(), rest);
                assert(seq![false] + Seq::<bool>::empty() =~= seq![false]);
            },
        }
    }
}

impl<T: Modeled, E: Modeled> Modeled for Result<T, E> {
    type Model = Result<T::Model, E::Model>;

    open spec fn model(&self) -> Result<T::Model, E::Model> {
        match self {
            Ok(x) => Ok(x.model()),
            Err(e) => Err(e.model()),
        }
    }
}

impl<T: BitEncode, E: BitEncode> BitEncode for Result<T, E> {
    open spec fn spec_encode(m: Result<T::Model, E::Model>) -> Result<Seq<bool>, CodecError> {
        match m {
            Ok(x) => tagged(true, T::spec_encode(x)),
            Err(e) => tagged(false, E::spec_encode(e)),
        }
    }

    fn encode(&self, w: &mut BitWriter) -> (res: Result<(), CodecError>) {
        let ghost start = w.bits();
        match self {
            Ok(v) => {
                w.write(&true)?;
                let ghost mid = w.bits();
                let r = v.encode(w);
                proof {
                    if let Ok(b) = T::spec_encode(v.model()) {
                        assert(mid + b =~= start + (seq![true] + b));
                    } else {
                        assert(start.is_prefix_of(mid));
                    }
                }
                r
            },
            Err(e) => {
                w.write(&false)?;
                let ghost mid = w.bits();
                let r = e.encode(w);
                proof {
                    if let Ok(b) = E::spec_encode(e.model()) {
                        assert(mid + b =~= start + (seq![false] + b));
                    } else {
                        assert(start.is_prefix_of(mid));
                    }
                }
                r
            },
        }
    }
}

impl<T: BitDecode, E: BitDecode> BitDecode for Result<T, E> {
    open spec fn spec_decode(bits: Seq<bool>) -> Result<(Result<T::Model, E::Model>, nat), CodecError> {
        if bits.len() < 1 {
            Err(CodecError::UnexpectedEof)
        } else if bits[0] {
            match T::spec_decode(bits.skip(1)) {
                Ok((m, k)) => Ok((Ok(m), k + 1)),
                Err(e) => Err(e),
            }
        } else {
            match E::spec_decode(bits.skip(1)) {
                Ok((m, k)) => Ok((Err(m), k + 1)),
                Err(e) => Err(e),
            }
        }
    }

    fn decode(r: &mut BitReader) -> (res: Result<Self, CodecError>) {
        let ghost start = r.remaining();
        if r.read::<bool>()? {
            let ghost mid = r.remaining();
            let res = T::decode(r);
            proof {
                assert(mid == start.skip(1));
                if let Ok((m, k)) = T::spec_decode(mid) {
                    assert(mid.skip(k as int) =~= start.skip(k + 1 as int));
                } else {
                    assert(r.remaining() =~= start.skip(start.len() - r.remaining().len()));
                }
            }
            match res {
                Ok(v) => Ok(Ok(v)),
                Err(e) => Err(e),
            }
        } else {
            let ghost mid = r.remaining();
            let res = E::decode(r);
            proof {
                assert(mid == start.skip(1));
                if let Ok((m, k)) = E::spec_decode(mid) {
                    assert(mid.skip(k as int) =~= start.skip(k + 1 as int));
                } else {
                    assert(r.remaining() =~= start.skip(start.len() - r.remaining().len()));
                }
            }
            match res {
                Ok(v) => Ok(Err(v)),
                Err(e) => Err(e),
            }
        }
    }
}

impl<T: RoundTrip, E: RoundTrip> RoundTrip for Result<T, E> {
    open spec fn spec_round_trips(m: Result<T::Model, E::Model>) -> bool {
        match m {
            Ok(x) => T::spec_round_trips(x),
            Err(e) => E::spec_round_trips(e),
        }
    }

    proof fn lemma_round_trip(x: &Self, rest: Seq<bool>) {
        match x {
            Ok(v) => {
                T::lemma_round_trip(v, rest);
                let b = T::spec_encode(v.model())->Ok_0;
                lemma_tag_split(true, b, rest);
                assert(seq![true] + b + rest =~= (seq![true] + b) + rest);
            },
            Err(e) => {
                E::lemma_round_trip(e, rest);
                let b = E::spec_encode(e.model())->Ok_0;
                lemma_tag_split(false, b, rest);
                assert(seq![false] + b + rest =~= (seq![false] + b) + rest);
            },
        }
    }
}

impl Modeled for () {
    type Model = ();

    open spec fn model(&self) -> () {
        ()
    }
}

impl BitEncode for () {
    /// No bits at all.
    open spec fn spec_encode(m: ()) -> Result<Seq<bool>, CodecError> {
        Ok(Seq::empty())
    }

    fn encode(&self, w: &mut BitWriter) -> (res: Result<(), CodecError>) {
        assert(w.bits() + Seq::<bool>::empty() =~= w.bits());
        Ok(())
    }
}

impl BitDecode for () {
    open spec fn spec_decode(bits: Seq<bool>) -> Result<((), nat), CodecError> {
        Ok(((), 0))
    }

    fn decode(r: &mut BitReader) -> (res: Result<Self, CodecError>) {
        assert(r.remaining().skip(0) =~= r.remaining());
        Ok(())
    }
}

impl RoundTrip for () {
    open spec fn spec_round_trips(m: ()) -> bool {
        true
    }

    proof fn lemma_round_trip(x: &Self, rest: Seq<bool>) {
    }
}

impl<T> Modeled for PhantomData<T> {
    type Model = ();

    open spec fn model(&self) -> () {
        ()
    }
}

impl<T> BitEncode for PhantomData<T> {
    /// No bits at all.
    open spec fn spec_encode(m: ()) -> Result<Seq<bool>, CodecError> {
        Ok(Seq::empty())
    }

    fn encode(&self, w: &mut BitWriter) -> (res: Result<(), CodecError>) {
        assert(w.bits() + Seq::<bool>::empty() =~= w.bits());
        Ok(())
    }
}

impl<T> BitDecode for PhantomData<T> {
    open spec fn spec_decode(bits: Seq<bool>) -> Result<((), nat), CodecError> {
        Ok(((), 0))
    }

    fn decode(r: &mut BitReader) -> (res: Result<Self, CodecError>) {
        assert(r.remaining().skip(0) =~= r.remaining());
        Ok(PhantomData)
    }
}

impl<T> RoundTrip for PhantomData<T> {
    open spec fn spec_round_trips(m: ()) -> bool {
        true
    }

    proof fn lemma_round_trip(x: &Self, rest: Seq<bool>) {
    }
}

impl<'a, T: Modeled + ?Sized> Modeled for &'a T {
    type Model = T::Model;

    open spec fn model(&self) -> T::Model {
        (**self).model()
    }
}

impl<'a, T: BitEncode + ?Sized> BitEncode for &'a T {
    /// What the reference refers to.
    open spec fn spec_encode(m: T::Model) -> Result<Seq<bool>, CodecError> {
        T::spec_encode(m)
    }

    fn encode(&self, w: &mut BitWriter) -> (res: Result<(), CodecError>) {
        (**self).encode(w)
    }
}

impl<T: Modeled + ?Sized> Modeled for Box<T> {
    type Model = T::Model;

    open spec fn model(&self) -> T::Model {
        (**self).model()
    }
}

impl<T: BitEncode + ?Sized> BitEncode for Box<T> {
    /// What the box holds.
    open spec fn spec_encode(m: T::Model) -> Result<Seq<bool>, CodecError> {
        T::spec_encode(m)
    }

    fn encode(&self, w: &mut BitWriter) -> (res: Result<(), CodecError>) {
        (**self).encode(w)
    }
}

impl<T: BitDecode> BitDecode for Box<T> {
    open spec fn spec_decode(bits: Seq<bool>) -> Result<(T::Model, nat), CodecError> {
        T::spec_decode(bits)
    }

    fn decode(r: &mut BitReader) -> (res: Result<Self, CodecError>) {
        match T::decode(r) {
            Ok(v) => Ok(Box::new(v)),
            Err(e) => Err(e),
        }
    }
}

impl<T: RoundTrip> RoundTrip for Box<T> {
    open spec fn spec_round_trips(m: T::Model) -> bool {
        T::spec_round_trips(m)
    }

    proof fn lemma_round_trip(x: &Self, rest: Seq<bool>) {
        T::lemma_round_trip(&**x, rest);
    }
}

/// `Vec::into_boxed_slice`: the same items in a boxed slice.
#[verifier::external_body]
fn vec_into_boxed_slice<T>(v: Vec<T>) -> (r: Box<[T]>)
    ensures
        (*r)@ == v@,
{
    v.into_boxed_slice()
}

impl<T: BitDecode> BitDecode for Box<[T]> {
    /// As a `Vec`.
    open spec fn spec_decode(bits: Seq<bool>) -> Result<(Seq<T::Model>, nat), CodecError> {
        <Vec<T> as BitDecode>::spec_decode(bits)
    }

    fn decode(r: &mut BitReader) -> (res: Result<Self, CodecError>) {
        match Vec::<T>::decode(r) {
            Ok(v) => {
                let b = vec_into_boxed_slice(v);
                proof {
                    assert(models((*b)@) == models(v@));
                }
                Ok(b)
            },
            Err(e) => Err(e),
        }
    }
}

/// `String::into_boxed_str`: the same text in a boxed `str`.
#[verifier::external_body]
fn string_into_boxed_str(s: String) -> (r: Box<str>)
    ensures
        (*r)@ == s@,
{
    s.into_boxed_str()
}

impl<T: RoundTrip> RoundTrip for Box<[T]> {
    /// Fewer than `2^32` items, each of which round-trips.
    open spec fn spec_round_trips(m: Seq<T::Model>) -> bool {
        &&& m.len() < 0x1_0000_0000
        &&& forall|i: int| 0 <= i < m.len() ==> T::spec_round_trips(#[trigger] m[i])
    }

    proof fn lemma_round_trip(x: &Self, rest: Seq<bool>) {
        let items = (**x)@;
        assert forall|i: int| 0 <= i < items.len() implies T::spec_round_trips(#[trigger] items[i].model()) by {
            assert(x.model()[i] == items[i].model());
        }
        lemma_counted_round_trip::<T>(items, rest);
    }
}

impl BitDecode for Box<str> {
    /// As a `String`.
    open spec fn spec_decode(bits: Seq<bool>) -> Result<(Seq<char>, nat), CodecError> {
        <String as BitDecode>::spec_decode(bits)
    }

    fn decode(r: &mut BitReader) -> (res: Result<Self, CodecError>) {
        match String::decode(r) {
            Ok(s) => Ok(string_into_boxed_str(s)),
            Err(e) => Err(e),
        }
    }
}

impl RoundTrip for Box<str> {
    /// Fewer than `2^32` bytes of UTF-8.
    open spec fn spec_round_trips(m: Seq<char>) -> bool {
        encode_utf8(m).len() < 0x1_0000_0000
    }

    proof fn lemma_round_trip(x: &Self, rest: Seq<bool>) {
        lemma_text_round_trip((**x)@, rest);
    }
}

impl<T: Modeled + ?Sized> Modeled for Rc<T> {
    type Model = T::Model;

    open spec fn model(&self) -> T::Model {
        (**self).model()
    }
}

impl<T: BitEncode + ?Sized> BitEncode for Rc<T> {
    /// What the pointer points to.
    open spec fn spec_encode(m: T::Model) -> Result<Seq<bool>, CodecError> {
        T::spec_encode(m)
    }

    fn encode(&self, w: &mut BitWriter) -> (res: Result<(), CodecError>) {
        (**self).encode(w)
    }
}

impl<T: BitDecode> BitDecode for Rc<T> {
    open spec fn spec_decode(bits: Seq<bool>) -> Result<(T::Model, nat), CodecError> {
        T::spec_decode(bits)
    }

    fn decode(r: &mut BitReader) -> (res: Result<Self, CodecError>) {
        match T::decode(r) {
            Ok(v) => Ok(Rc::new(v)),
            Err(e) => Err(e),
        }
    }
}

impl<T: RoundTrip> RoundTrip for Rc<T> {
    open spec fn spec_round_trips(m: T::Model) -> bool {
        T::spec_round_trips(m)
    }

    proof fn lemma_round_trip(x: &Self, rest: Seq<bool>) {
        T::lemma_round_trip(&**x, rest);
    }
}

impl<T: Modeled + ?Sized> Modeled for Arc<T> {
    type Model = T::Model;

    open spec fn model(&self) -> T::Model {
        (**self).model()
    }
}

impl<T: BitEncode + ?Sized> BitEncode for Arc<T> {
    /// What the pointer points to.
    open spec fn spec_encode(m: T::Model) -> Result<Seq<bool>, CodecError> {
        T::spec_encode(m)
    }

    fn encode(&self, w: &mut BitWriter) -> (res: Result<(), CodecError>) {
        (**self).encode(w)
    }
}

impl<T: BitDecode> BitDecode for Arc<T> {
    open spec fn spec_decode(bits: Seq<bool>) -> Result<(T::Model, nat), CodecError> {
        T::spec_decode(bits)
    }

    fn decode(r: &mut BitReader) -> (res: Result<Self, CodecError>) {
        match T::decode(r) {
            Ok(v) => Ok(Arc::new(v)),
            Err(e) => Err(e),
        }
    }
}

impl<T: RoundTrip> RoundTrip for Arc<T> {
    open spec fn spec_round_trips(m: T::Model) -> bool {
        T::spec_round_trips(m)
    }

    proof fn lemma_round_trip(x: &Self, rest: Seq<bool>) {
        T::lemma_round_trip(&**x, rest);
    }
}

} // verus!
