//! A sequence whose length is written as a header of a chosen integer type
//! in place of a `VarLen`.
use vstd::prelude::*;

verus! {

use std::marker::PhantomData;
use crate::codec::{Modeled, RoundTrip};
use crate::dec::{BitDecode, BitReader, consumed_from};
use crate::enc::{BitEncode, BitWriter};
use crate::error::CodecError;
use crate::seqs::{models, encode_all, decode_n, decode_n_stop, decode_items, encode_items, lemma_decode_n_encode_all};

/// A type that can stand for a sequence's length in its header.
pub trait LenHeader: BitEncode + BitDecode + Sized {
    /// The header that stands for a length, where the type can hold it.
    spec fn spec_from_len(len: nat) -> Option<Self>;

    /// The length that a header stands for, where it is one that `usize` holds.
    spec fn spec_to_len(m: Self::Model) -> Option<nat>;

    /// A header read back stands for the length it was made from.
    proof fn lemma_len_inverse(len: nat)
        requires
            len <= usize::MAX,
            Self::spec_from_len(len) is Some,
        ensures
            Self::spec_to_len(Self::spec_from_len(len)->0.model()) == Some(len),
    ;

    /// Converts a length to a header; `None` where the type cannot hold it.
    fn from_len(len: usize) -> (r: Option<Self>)
        ensures
            r == Self::spec_from_len(len as nat),
    ;

    /// Converts a header to a length; `None` where it is negative or larger
    /// than `usize` holds.
    fn to_len(&self) -> (r: Option<usize>)
        ensures
            match Self::spec_to_len(self.model()) {
                Some(n) => r matches Some(u) && u == n,
                None => r is None,
            },
    ;
}

impl LenHeader for u8 {
    open spec fn spec_from_len(len: nat) -> Option<u8> {
        if len <= 255 { Some(len as u8) } else { None }
    }

    open spec fn spec_to_len(m: u8) -> Option<nat> {
        Some(m as nat)
    }

    proof fn lemma_len_inverse(len: nat) {
    }

    fn from_len(len: usize) -> (r: Option<u8>) {
        if len <= 255 { Some(len as u8) } else { None }
    }

    fn to_len(&self) -> (r: Option<usize>) {
        Some(*self as usize)
    }
}

impl LenHeader for u16 {
    open spec fn spec_from_len(len: nat) -> Option<u16> {
        if len <= 0xffff { Some(len as u16) } else { None }
    }

    open spec fn spec_to_len(m: u16) -> Option<nat> {
        Some(m as nat)
    }

    proof fn lemma_len_inverse(len: nat) {
    }

    fn from_len(len: usize) -> (r: Option<u16>) {
        if len <= 0xffff { Some(len as u16) } else { None }
    }

    fn to_len(&self) -> (r: Option<usize>) {
        Some(*self as usize)
    }
}

impl LenHeader for u32 {
    open spec fn spec_from_len(len: nat) -> Option<u32> {
        if len <= 0xffff_ffff { Some(len as u32) } else { None }
    }

    open spec fn spec_to_len(m: u32) -> Option<nat> {
        Some(m as nat)
    }

    proof fn lemma_len_inverse(len: nat) {
    }

    fn from_len(len: usize) -> (r: Option<u32>) {
        if len <= 0xffff_ffff { Some(len as u32) } else { None }
    }

    fn to_len(&self) -> (r: Option<usize>) {
        Some(*self as usize)
    }
}

impl LenHeader for u64 {
    open spec fn spec_from_len(len: nat) -> Option<u64> {
        if len <= u64::MAX { Some(len as u64) } else { None }
    }

    open spec fn spec_to_len(m: u64) -> Option<nat> {
        if m <= usize::MAX { Some(m as nat) } else { None }
    }

    proof fn lemma_len_inverse(len: nat) {
    }

    fn from_len(len: usize) -> (r: Option<u64>) {
        Some(len as u64)
    }

    fn to_len(&self) -> (r: Option<usize>) {
        if *self <= usize::MAX as u64 { Some(*self as usize) } else { None }
    }
}

impl LenHeader for u128 {
    open spec fn spec_from_len(len: nat) -> Option<u128> {
        if len <= u128::MAX { Some(len as u128) } else { None }
    }

    open spec fn spec_to_len(m: u128) -> Option<nat> {
        if m <= usize::MAX { Some(m as nat) } else { None }
    }

    proof fn lemma_len_inverse(len: nat) {
    }

    fn from_len(len: usize) -> (r: Option<u128>) {
        Some(len as u128)
    }

    fn to_len(&self) -> (r: Option<usize>) {
        if *self <= usize::MAX as u128 { Some(*self as usize) } else { None }
    }
}

impl LenHeader for usize {
    open spec fn spec_from_len(len: nat) -> Option<usize> {
        if len <= usize::MAX { Some(len as usize) } else { None }
    }

    open spec fn spec_to_len(m: usize) -> Option<nat> {
        Some(m as nat)
    }

    proof fn lemma_len_inverse(len: nat) {
    }

    fn from_len(len: usize) -> (r: Option<usize>) {
        Some(len as usize)
    }

    fn to_len(&self) -> (r: Option<usize>) {
        Some(*self as usize)
    }
}

impl LenHeader for i8 {
    open spec fn spec_from_len(len: nat) -> Option<i8> {
        if len <= 127 { Some(len as i8) } else { None }
    }

    open spec fn spec_to_len(m: i8) -> Option<nat> {
        if m >= 0 { Some(m as nat) } else { None }
    }

    proof fn lemma_len_inverse(len: nat) {
    }

    fn from_len(len: usize) -> (r: Option<i8>) {
        if len <= 127 { Some(len as i8) } else { None }
    }

    fn to_len(&self) -> (r: Option<usize>) {
        if *self >= 0 { Some(*self as usize) } else { None }
    }
}

impl LenHeader for i16 {
    open spec fn spec_from_len(len: nat) -> Option<i16> {
        if len <= 0x7fff { Some(len as i16) } else { None }
    }

    open spec fn spec_to_len(m: i16) -> Option<nat> {
        if m >= 0 { Some(m as nat) } else { None }
    }

    proof fn lemma_len_inverse(len: nat) {
    }

    fn from_len(len: usize) -> (r: Option<i16>) {
        if len <= 0x7fff { Some(len as i16) } else { None }
    }

    fn to_len(&self) -> (r: Option<usize>) {
        if *self >= 0 { Some(*self as usize) } else { None }
    }
}

impl LenHeader for i32 {
    open spec fn spec_from_len(len: nat) -> Option<i32> {
        if len <= 0x7fff_ffff { Some(len as i32) } else { None }
    }

    open spec fn spec_to_len(m: i32) -> Option<nat> {
        if m >= 0 { Some(m as nat) } else { None }
    }

    proof fn lemma_len_inverse(len: nat) {
    }

    fn from_len(len: usize) -> (r: Option<i32>) {
        if len <= 0x7fff_ffff { Some(len as i32) } else { None }
    }

    fn to_len(&self) -> (r: Option<usize>) {
        if *self >= 0 { Some(*self as usize) } else { None }
    }
}

impl LenHeader for i64 {
    open spec fn spec_from_len(len: nat) -> Option<i64> {
        if len <= 0x7fff_ffff_ffff_ffff { Some(len as i64) } else { None }
    }

    open spec fn spec_to_len(m: i64) -> Option<nat> {
        if 0 <= m <= usize::MAX { Some(m as nat) } else { None }
    }

    proof fn lemma_len_inverse(len: nat) {
    }

    fn from_len(len: usize) -> (r: Option<i64>) {
        if len as u64 <= 0x7fff_ffff_ffff_ffff { Some(len as i64) } else { None }
    }

    fn to_len(&self) -> (r: Option<usize>) {
        if *self >= 0 && *self as u64 <= usize::MAX as u64 { Some(*self as usize) } else { None }
    }
}

impl LenHeader for i128 {
    open spec fn spec_from_len(len: nat) -> Option<i128> {
        if len <= i128::MAX { Some(len as i128) } else { None }
    }

    open spec fn spec_to_len(m: i128) -> Option<nat> {
        if 0 <= m <= usize::MAX { Some(m as nat) } else { None }
    }

    proof fn lemma_len_inverse(len: nat) {
    }

    fn from_len(len: usize) -> (r: Option<i128>) {
        Some(len as i128)
    }

    fn to_len(&self) -> (r: Option<usize>) {
        if *self >= 0 && *self <= usize::MAX as i128 { Some(*self as usize) } else { None }
    }
}

impl LenHeader for isize {
    open spec fn spec_from_len(len: nat) -> Option<isize> {
        if len <= isize::MAX { Some(len as isize) } else { None }
    }

    open spec fn spec_to_len(m: isize) -> Option<nat> {
        if m >= 0 { Some(m as nat) } else { None }
    }

    proof fn lemma_len_inverse(len: nat) {
    }

    fn from_len(len: usize) -> (r: Option<isize>) {
        if len <= isize::MAX as usize { Some(len as isize) } else { None }
    }

    fn to_len(&self) -> (r: Option<usize>) {
        if *self >= 0 { Some(*self as usize) } else { None }
    }
}

/// A `Vec` whose length is written as an `H` in place of a `VarLen`.
pub struct CountedSeq<H, T> {
    pub inner: Vec<T>,
    _header: PhantomData<H>,
}

impl<H, T> CountedSeq<H, T> {
    /// The items.
    pub closed spec fn items(&self) -> Seq<T> {
        self.inner@
    }

    /// Wraps `inner`.
    pub fn new(inner: Vec<T>) -> (s: Self)
        ensures
            s.items() == inner@,
    {
        CountedSeq { inner, _header: PhantomData }
    }

    /// The items, for reading.
    pub fn as_vec(&self) -> (v: &Vec<T>)
        ensures
            v@ == self.items(),
    {
        &self.inner
    }
}

impl<H, T: Modeled> Modeled for CountedSeq<H, T> {
    type Model = Seq<T::Model>;

    open spec fn model(&self) -> Seq<T::Model> {
        models(self.items())
    }
}

impl<H: LenHeader, T: BitEncode> BitEncode for CountedSeq<H, T> {
    /// The length as an `H`, then the items; a length that `H` cannot hold
    /// is refused before anything is written.
    open spec fn spec_encode(m: Seq<T::Model>) -> Result<Seq<bool>, CodecError> {
        match H::spec_from_len(m.len()) {
            None => Err(CodecError::LengthOverflow),
            Some(h) => match H::spec_encode(h.model()) {
                Err(e) => Err(e),
                Ok(a) => match encode_all::<T>(m) {
                    Err(e) => Err(e),
                    Ok(b) => Ok(a + b),
                },
            },
        }
    }

    /// A refused length leaves the writer as it was.
    fn encode(&self, w: &mut BitWriter) -> (res: Result<(), CodecError>)
        ensures
            H::spec_from_len(self.model().len()) is None ==> *final(w) == *old(w),
    {
        let ghost start = w.bits();
        let len = match H::from_len(self.inner.len()) {
            Some(h) => h,
            None => {
                proof {
                    assert(start.is_prefix_of(w.bits())) by {
                        assert(start =~= w.bits().subrange(0, start.len() as int));
                    }
                }
                return Err(CodecError::LengthOverflow);
            },
        };
        match len.encode(w) {
            Ok(()) => {},
            Err(e) => {
                return Err(e);
            },
        }
        let ghost mid = w.bits();
        let res = encode_items(self.inner.as_slice(), w);
        proof {
            let ms = models(self.inner@);
            assert(ms.len() == self.inner@.len());
            match encode_all::<T>(ms) {
                Ok(b) => {
                    let a = H::spec_encode(len.model())->Ok_0;
                    assert(mid + b =~= start + (a + b));
                },
                Err(e) => {
                    assert(start.is_prefix_of(mid));
                },
            }
        }
        res
    }
}

impl<H: LenHeader, T: BitDecode> BitDecode for CountedSeq<H, T> {
    /// An `H`, then as many items as it stands for.
    open spec fn spec_decode(bits: Seq<bool>) -> Result<(Seq<T::Model>, nat), CodecError> {
        match H::spec_decode(bits) {
            Err(e) => Err(e),
            Ok((h, k)) => match H::spec_to_len(h) {
                None => Err(CodecError::LengthTooLarge),
                Some(n) => match decode_n::<T>(bits.skip(k as int), n) {
                    Ok((ms, k2)) => Ok((ms, k + k2)),
                    Err(e) => Err(e),
                },
            },
        }
    }

    /// A header that stands for no length stops the reader right after it;
    /// when an item fails, reading stops in it and no later item is read.
    fn decode(r: &mut BitReader) -> (res: Result<Self, CodecError>)
        ensures
            H::spec_decode(old(r).remaining()) matches Ok((h, k)) ==> ({
                let items = old(r).remaining().skip(k as int);
                &&& H::spec_to_len(h) is None ==> final(r).remaining() == items
                &&& H::spec_to_len(h) matches Some(n) ==> (decode_n::<T>(items, n) is Err ==> {
                    &&& decode_n_stop::<T>(items, n) <= items.len()
                    &&& consumed_from(items.skip(decode_n_stop::<T>(items, n) as int), final(r).remaining())
                })
            }),
    {
        let ghost start = r.remaining();
        let raw = H::decode(r)?;
        let ghost mid = r.remaining();
        let len = match raw.to_len() {
            Some(n) => n,
            None => {
                return Err(CodecError::LengthTooLarge);
            },
        };
        let res = decode_items(r, len);
        proof {
            let k = H::spec_decode(start)->Ok_0.1;
            assert(k == start.len() - mid.len());
            match decode_n::<T>(mid, len as nat) {
                Ok((ms, k2)) => {
                    assert(mid.skip(k2 as int) =~= start.skip((k + k2) as int));
                },
                Err(e) => {
                    assert(r.remaining() =~= start.skip(start.len() - r.remaining().len()));
                },
            }
        }
        match res {
            Ok(inner) => Ok(CountedSeq { inner, _header: PhantomData }),
            Err(e) => Err(e),
        }
    }
}

impl<H: LenHeader + RoundTrip, T: RoundTrip> RoundTrip for CountedSeq<H, T> {
    /// A length that `H` holds, a header that round-trips, and items that do.
    open spec fn spec_round_trips(m: Seq<T::Model>) -> bool {
        &&& H::spec_from_len(m.len()) is Some
        &&& H::spec_round_trips(H::spec_from_len(m.len())->0.model())
        &&& forall|i: int| 0 <= i < m.len() ==> T::spec_round_trips(#[trigger] m[i])
    }

    proof fn lemma_round_trip(x: &Self, rest: Seq<bool>) {
        let xs = x.inner@;
        let ms = models(xs);
        let h = H::spec_from_len(ms.len())->0;
        assert forall|i: int| 0 <= i < xs.len() implies T::spec_round_trips(#[trigger] xs[i].model()) by {
            assert(ms[i] == xs[i].model());
        }
        lemma_decode_n_encode_all::<T>(xs, rest);
        let items = encode_all::<T>(ms)->Ok_0;
        H::lemma_round_trip(&h, items + rest);
        assert(xs.len() == x.inner.len());
        H::lemma_len_inverse(ms.len());
        let a = H::spec_encode(h.model())->Ok_0;
        assert(a + items + rest =~= a + (items + rest));
        assert((a + (items + rest)).skip(a.len() as int) =~= items + rest);
    }
}

} // verus!
