//! Codec for `Duration`: its whole seconds as a `u64`, then the nanoseconds
//! of the fraction of a second as a `u32`.
use vstd::prelude::*;

verus! {

use std::time::Duration;
use crate::codec::{Modeled, RoundTrip};
use crate::dec::{BitDecode, BitReader, lemma_consumed_skip, lemma_consumed_trans};
use crate::enc::{BitEncode, BitWriter};
use crate::error::CodecError;
use crate::tuples::then_enc;

/// One billion: the nanoseconds in a second.
pub const NANOS_PER_SEC: u32 = 1_000_000_000;

/// What `Duration::as_secs` returns for `d`.
pub uninterp spec fn duration_secs(d: Duration) -> u64;

/// What `Duration::subsec_nanos` returns for `d`.
pub uninterp spec fn duration_subsec_nanos(d: Duration) -> u32;

/// `Duration::as_secs`: the whole seconds in the duration.
#[verifier::external_body]
fn duration_as_secs(d: &Duration) -> (r: u64)
    ensures
        r == duration_secs(*d),
{
    d.as_secs()
}

/// `Duration::subsec_nanos`: the fraction of a second, in nanoseconds;
/// its documentation promises that this is below one billion.
#[verifier::external_body]
fn duration_nanos(d: &Duration) -> (r: u32)
    ensures
        r == duration_subsec_nanos(*d),
        r < NANOS_PER_SEC,
{
    d.subsec_nanos()
}

/// `Duration::new`: with fewer than a billion nanoseconds nothing carries
/// into the seconds, so the duration has exactly the seconds and
/// nanoseconds it was made from. (With a billion or more it carries, and may
/// panic; that input is left out.)
#[verifier::external_body]
fn duration_new(secs: u64, nanos: u32) -> (d: Duration)
    requires
        nanos < NANOS_PER_SEC,
    ensures
        duration_secs(d) == secs,
        duration_subsec_nanos(d) == nanos,
{
    Duration::new(secs, nanos)
}

impl Modeled for Duration {
    /// The whole seconds and the nanoseconds of the fraction.
    type Model = (u64, u32);

    open spec fn model(&self) -> (u64, u32) {
        (duration_secs(*self), duration_subsec_nanos(*self))
    }
}

impl BitEncode for Duration {
    open spec fn spec_encode(m: (u64, u32)) -> Result<Seq<bool>, CodecError> {
        then_enc(<u64 as BitEncode>::spec_encode(m.0), <u32 as BitEncode>::spec_encode(m.1))
    }

    fn encode(&self, w: &mut BitWriter) -> (res: Result<(), CodecError>) {
        let ghost start = w.bits();
        let secs = duration_as_secs(self);
        let nanos = duration_nanos(self);
        secs.encode(w)?;
        let r = nanos.encode(w);
        proof {
            let p = <u64 as BitEncode>::spec_encode(secs)->Ok_0;
            let q = <u32 as BitEncode>::spec_encode(nanos)->Ok_0;
            assert((start + p) + q =~= start + (p + q));
        }
        r
    }
}

impl BitDecode for Duration {
    /// The seconds, then the nanoseconds, which must be below one billion.
    open spec fn spec_decode(bits: Seq<bool>) -> Result<((u64, u32), nat), CodecError> {
        match <u64 as BitDecode>::spec_decode(bits) {
            Err(e) => Err(e),
            Ok((s, k0)) => match <u32 as BitDecode>::spec_decode(bits.skip(k0 as int)) {
                Err(e) => Err(e),
                Ok((n, k1)) => if n < NANOS_PER_SEC {
                    Ok(((s, n), k0 + k1))
                } else {
                    Err(CodecError::InvalidNanos)
                },
            },
        }
    }

    fn decode(r: &mut BitReader) -> (res: Result<Self, CodecError>) {
        let ghost s0 = r.remaining();
        let secs = u64::decode(r)?;
        let ghost s1 = r.remaining();
        let nanos = match u32::decode(r) {
            Ok(v) => v,
            Err(e) => {
                proof {
                    lemma_consumed_skip(s0, s0.len() - s1.len());
                    assert(s1 =~= s0.skip(s0.len() - s1.len()));
                    lemma_consumed_trans(s0, s1, r.remaining());
                }
                return Err(e);
            },
        };
        let ghost k0 = <u64 as BitDecode>::spec_decode(s0)->Ok_0.1;
        let ghost k1 = <u32 as BitDecode>::spec_decode(s1)->Ok_0.1;
        proof {
            assert(r.remaining() =~= s0.skip((k0 + k1) as int));
        }
        if nanos >= NANOS_PER_SEC {
            proof {
                lemma_consumed_skip(s0, (k0 + k1) as int);
            }
            return Err(CodecError::InvalidNanos);
        }
        Ok(duration_new(secs, nanos))
    }
}

impl RoundTrip for Duration {
    /// Fewer than a billion nanoseconds, which every `Duration` has.
    open spec fn spec_round_trips(m: (u64, u32)) -> bool {
        m.1 < NANOS_PER_SEC
    }

    proof fn lemma_round_trip(x: &Self, rest: Seq<bool>) {
        let m = x.model();
        let e0 = <u64 as BitEncode>::spec_encode(m.0)->Ok_0;
        let e1 = <u32 as BitEncode>::spec_encode(m.1)->Ok_0;
        <u64 as RoundTrip>::lemma_round_trip(&m.0, e1 + rest);
        <u32 as RoundTrip>::lemma_round_trip(&m.1, rest);
        assert(e0 + e1 + rest =~= e0 + (e1 + rest));
        assert((e0 + (e1 + rest)).skip(e0.len() as int) =~= e1 + rest);
    }
}

} // verus!
