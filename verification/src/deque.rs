//! Codec for `VecDeque`: written front to back like a `Vec`, with the
//! length as a `VarLen` first.
use vstd::prelude::*;

verus! {

use std::collections::VecDeque;
use crate::codec::{Modeled, RoundTrip};
use crate::dec::{BitDecode, BitReader, consumed_from};
use crate::enc::{BitEncode, BitWriter};
use crate::error::CodecError;
use crate::seqs::{models, encode_all, decode_n, encode_counted, decode_counted, lemma_encode_all_push, lemma_encode_all_error, lemma_counted_round_trip};
use crate::var_len::{VarLen, varlen_bits};

impl<T: Modeled> Modeled for VecDeque<T> {
    type Model = Seq<T::Model>;

    open spec fn model(&self) -> Seq<T::Model> {
        models(self@)
    }
}

impl<T: BitEncode> BitEncode for VecDeque<T> {
    open spec fn spec_encode(m: Seq<T::Model>) -> Result<Seq<bool>, CodecError> {
        encode_counted::<T>(m)
    }

    fn encode(&self, w: &mut BitWriter) -> (res: Result<(), CodecError>) {
        let ghost ms = models(self@);
        let ghost start = w.bits();
        VarLen(self.len() as u32).encode(w)?;
        let ghost mid = w.bits();
        let mut i: usize = 0;
        proof {
            assert(ms.take(0) =~= Seq::<T::Model>::empty());
            assert(mid + Seq::<bool>::empty() =~= mid);
        }
        while i < self.len()
            invariant
                i <= self@.len(),
                ms == models(self@),
                start == old(w).bits(),
                start.is_prefix_of(mid),
                encode_all::<T>(ms.take(i as int)) is Ok,
                w.bits() == mid + encode_all::<T>(ms.take(i as int))->Ok_0,
                mid == start + varlen_bits(crate::seqs::len_header(ms.len())),
            decreases self@.len() - i,
        {
            let ghost before = w.bits();
            let r = self[i].encode(w);
            proof {
                assert(ms.take(i + 1) =~= ms.take(i as int).push(ms[i as int]));
                lemma_encode_all_push::<T>(ms.take(i as int), ms[i as int]);
            }
            match r {
                Ok(()) => {
                    proof {
                        let a = encode_all::<T>(ms.take(i as int))->Ok_0;
                        let b = T::spec_encode(ms[i as int])->Ok_0;
                        assert((mid + a) + b =~= mid + (a + b));
                    }
                },
                Err(e) => {
                    proof {
                        lemma_encode_all_error::<T>(ms, i as int);
                        assert(mid.is_prefix_of(before));
                        crate::enc::lemma_prefix_trans(start, mid, before);
                        crate::enc::lemma_prefix_trans(start, before, w.bits());
                    }
                    return Err(e);
                },
            }
            i = i + 1;
        }
        proof {
            assert(ms.take(self@.len() as int) =~= ms);
            let b = encode_all::<T>(ms)->Ok_0;
            assert(mid + b =~= start + (varlen_bits(crate::seqs::len_header(ms.len())) + b));
        }
        Ok(())
    }
}

impl<T: BitDecode> BitDecode for VecDeque<T> {
    open spec fn spec_decode(bits: Seq<bool>) -> Result<(Seq<T::Model>, nat), CodecError> {
        decode_counted::<T>(bits)
    }

    fn decode(r: &mut BitReader) -> (res: Result<Self, CodecError>) {
        let ghost start = r.remaining();
        let n = VarLen::decode(r)?.0 as usize;
        let ghost mid = r.remaining();
        let mut out: VecDeque<T> = VecDeque::new();
        let mut i: usize = 0;
        proof {
            assert(models(out@) =~= Seq::<T::Model>::empty());
            assert(mid.skip(0) =~= mid);
            match decode_n::<T>(mid, n as nat) {
                Ok((ms, k)) => {
                    assert(Seq::<T::Model>::empty() + ms =~= ms);
                },
                Err(e) => {},
            }
        }
        while i < n
            invariant
                i <= n,
                start == old(r).remaining(),
                consumed_from(start, mid),
                consumed_from(mid, r.remaining()),
                decode_counted::<T>(start) == match <VarLen as BitDecode>::spec_decode(start) {
                    Ok((l, k)) => match decode_n::<T>(mid, l as nat) {
                        Ok((ms, k2)) => Ok::<(Seq<T::Model>, nat), CodecError>((ms, k + k2)),
                        Err(e) => Err(e),
                    },
                    Err(e) => Err(e),
                },
                <VarLen as BitDecode>::spec_decode(start) matches Ok((l, k)) && l as nat == n as nat && k
                    == start.len() - mid.len(),
                decode_n::<T>(mid, n as nat) == match decode_n::<T>(r.remaining(), (n - i) as nat) {
                    Ok((ms, k)) => Ok::<(Seq<T::Model>, nat), CodecError>(
                        (models(out@) + ms, ((mid.len() - r.remaining().len()) + k) as nat),
                    ),
                    Err(e) => Err(e),
                },
            decreases n - i,
        {
            let ghost here = r.remaining();
            match T::decode(r) {
                Ok(x) => {
                    proof {
                        let k = T::spec_decode(here)->Ok_0.1;
                        assert(r.remaining() =~= mid.skip(mid.len() - r.remaining().len()));
                        assert(models(out@.push(x)) =~= models(out@).push(x.model()));
                        match decode_n::<T>(r.remaining(), (n - i - 1) as nat) {
                            Ok((ms, k2)) => {
                                assert(models(out@) + (seq![x.model()] + ms) =~= models(out@).push(x.model()) + ms);
                            },
                            Err(e) => {},
                        }
                    }
                    out.push_back(x);
                },
                Err(e) => {
                    proof {
                        assert(r.remaining() =~= start.skip(start.len() - r.remaining().len()));
                    }
                    return Err(e);
                },
            }
            i = i + 1;
        }
        proof {
            assert(models(out@) + Seq::<T::Model>::empty() =~= models(out@));
            assert(r.remaining() =~= start.skip(start.len() - r.remaining().len()));
        }
        Ok(out)
    }
}

impl<T: RoundTrip> RoundTrip for VecDeque<T> {
    /// Fewer than `2^32` items, each of which round-trips.
    open spec fn spec_round_trips(m: Seq<T::Model>) -> bool {
        &&& m.len() < 0x1_0000_0000
        &&& forall|i: int| 0 <= i < m.len() ==> T::spec_round_trips(#[trigger] m[i])
    }

    proof fn lemma_round_trip(x: &Self, rest: Seq<bool>) {
        assert forall|i: int| 0 <= i < x@.len() implies T::spec_round_trips(#[trigger] x@[i].model()) by {
            assert(x.model()[i] == x@[i].model());
        }
        lemma_counted_round_trip::<T>(x@, rest);
    }
}

} // verus!
