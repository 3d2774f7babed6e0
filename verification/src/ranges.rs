//! Codecs for ranges: the start, then the end.
use vstd::prelude::*;

verus! {

use std::ops::Range;
use crate::codec::{Modeled, RoundTrip};
use crate::dec::{BitDecode, BitReader, lemma_consumed_skip, lemma_consumed_trans};
use crate::enc::{BitEncode, BitWriter, lemma_prefix_trans};
use crate::error::CodecError;
use crate::tuples::then_enc;

impl<T: Modeled> Modeled for Range<T> {
    type Model = (T::Model, T::Model);

    open spec fn model(&self) -> (T::Model, T::Model) {
        (self.start.model(), self.end.model())
    }
}

impl<T: BitEncode> BitEncode for Range<T> {
    open spec fn spec_encode(m: (T::Model, T::Model)) -> Result<Seq<bool>, CodecError> {
        then_enc(T::spec_encode(m.0), T::spec_encode(m.1))
    }

    fn encode(&self, w: &mut BitWriter) -> (res: Result<(), CodecError>) {
        let ghost start = w.bits();
        self.start.encode(w)?;
        let ghost mid = w.bits();
        let r = self.end.encode(w);
        proof {
            if let (Ok(p), Ok(q)) = (T::spec_encode(self.start.model()), T::spec_encode(self.end.model())) {
                assert((start + p) + q =~= start + (p + q));
            }
            if r is Err {
                assert(start.is_prefix_of(mid)) by {
                    assert(start =~= mid.subrange(0, start.len() as int));
                }
                lemma_prefix_trans(start, mid, w.bits());
            }
        }
        r
    }
}

impl<T: BitDecode> BitDecode for Range<T> {
    open spec fn spec_decode(bits: Seq<bool>) -> Result<((T::Model, T::Model), nat), CodecError> {
        match T::spec_decode(bits) {
            Err(e) => Err(e),
            Ok((a, k0)) => match T::spec_decode(bits.skip(k0 as int)) {
                Err(e) => Err(e),
                Ok((b, k1)) => Ok(((a, b), k0 + k1)),
            },
        }
    }

    fn decode(r: &mut BitReader) -> (res: Result<Self, CodecError>) {
        let ghost s0 = r.remaining();
        let start = T::decode(r)?;
        let ghost s1 = r.remaining();
        let end = match T::decode(r) {
            Ok(v) => v,
            Err(e) => {
                proof {
                    lemma_consumed_skip(s0, s0.len() - s1.len());
                    assert(s1 =~= s0.skip(s0.len() - s1.len()));
                    lemma_consumed_trans(s0, s1, r.remaining());
                }
                return Err(e);
            },
        };
        proof {
            let k0 = T::spec_decode(s0)->Ok_0.1;
            let k1 = T::spec_decode(s1)->Ok_0.1;
            assert(r.remaining() =~= s0.skip((k0 + k1) as int));
        }
        Ok(Range { start, end })
    }
}

impl<T: RoundTrip> RoundTrip for Range<T> {
    open spec fn spec_round_trips(m: (T::Model, T::Model)) -> bool {
        &&& T::spec_round_trips(m.0)
        &&& T::spec_round_trips(m.1)
    }

    proof fn lemma_round_trip(x: &Self, rest: Seq<bool>) {
        let e0 = T::spec_encode(x.start.model())->Ok_0;
        let e1 = T::spec_encode(x.end.model())->Ok_0;
        T::lemma_round_trip(&x.start, e1 + rest);
        T::lemma_round_trip(&x.end, rest);
        assert(e0 + e1 + rest =~= e0 + (e1 + rest));
        assert((e0 + (e1 + rest)).skip(e0.len() as int) =~= e1 + rest);
    }
}

/// A range with both ends included, by its two bounds.
#[derive(Clone, Copy, Debug, PartialEq, Eq)]
pub struct RangeInclusive<T> {
    pub start: T,
    pub end: T,
}

impl<T: Modeled> Modeled for RangeInclusive<T> {
    type Model = (T::Model, T::Model);

    open spec fn model(&self) -> (T::Model, T::Model) {
        (self.start.model(), self.end.model())
    }
}

impl<T: BitEncode> BitEncode for RangeInclusive<T> {
    open spec fn spec_encode(m: (T::Model, T::Model)) -> Result<Seq<bool>, CodecError> {
        then_enc(T::spec_encode(m.0), T::spec_encode(m.1))
    }

    fn encode(&self, w: &mut BitWriter) -> (res: Result<(), CodecError>) {
        let ghost start = w.bits();
        self.start.encode(w)?;
        let ghost mid = w.bits();
        let r = self.end.encode(w);
        proof {
            if let (Ok(p), Ok(q)) = (T::spec_encode(self.start.model()), T::spec_encode(self.end.model())) {
                assert((start + p) + q =~= start + (p + q));
            }
            if r is Err {
                assert(start.is_prefix_of(mid)) by {
                    assert(start =~= mid.subrange(0, start.len() as int));
                }
                lemma_prefix_trans(start, mid, w.bits());
            }
        }
        r
    }
}

impl<T: BitDecode> BitDecode for RangeInclusive<T> {
    open spec fn spec_decode(bits: Seq<bool>) -> Result<((T::Model, T::Model), nat), CodecError> {
        match T::spec_decode(bits) {
            Err(e) => Err(e),
            Ok((a, k0)) => match T::spec_decode(bits.skip(k0 as int)) {
                Err(e) => Err(e),
                Ok((b, k1)) => Ok(((a, b), k0 + k1)),
            },
        }
    }

    fn decode(r: &mut BitReader) -> (res: Result<Self, CodecError>) {
        let ghost s0 = r.remaining();
        let start = T::decode(r)?;
        let ghost s1 = r.remaining();
        let end = match T::decode(r) {
            Ok(v) => v,
            Err(e) => {
                proof {
                    lemma_consumed_skip(s0, s0.len() - s1.len());
                    assert(s1 =~= s0.skip(s0.len() - s1.len()));
                    lemma_consumed_trans(s0, s1, r.remaining());
                }
                return Err(e);
            },
        };
        proof {
            let k0 = T::spec_decode(s0)->Ok_0.1;
            let k1 = T::spec_decode(s1)->Ok_0.1;
            assert(r.remaining() =~= s0.skip((k0 + k1) as int));
        }
        Ok(RangeInclusive { start, end })
    }
}

impl<T: RoundTrip> RoundTrip for RangeInclusive<T> {
    open spec fn spec_round_trips(m: (T::Model, T::Model)) -> bool {
        &&& T::spec_round_trips(m.0)
        &&& T::spec_round_trips(m.1)
    }

    proof fn lemma_round_trip(x: &Self, rest: Seq<bool>) {
        let e0 = T::spec_encode(x.start.model())->Ok_0;
        let e1 = T::spec_encode(x.end.model())->Ok_0;
        T::lemma_round_trip(&x.start, e1 + rest);
        T::lemma_round_trip(&x.end, rest);
        assert(e0 + e1 + rest =~= e0 + (e1 + rest));
        assert((e0 + (e1 + rest)).skip(e0.len() as int) =~= e1 + rest);
    }
}

} // verus!
