//! Codecs for tuples: the fields one after another, with nothing between.
use vstd::prelude::*;

verus! {

use crate::codec::{Modeled, RoundTrip};
use crate::dec::{BitDecode, BitReader, lemma_consumed_skip, lemma_consumed_trans};
use crate::enc::{BitEncode, BitWriter, lemma_prefix_trans};
use crate::error::CodecError;

/// One encoding followed by another; the first that fails stops it.
pub open spec fn then_enc(a: Result<Seq<bool>, CodecError>, b: Result<Seq<bool>, CodecError>) -> Result<Seq<bool>, CodecError> {
    match a {
        Ok(x) => match b {
            Ok(y) => Ok(x + y),
            Err(e) => Err(e),
        },
        Err(e) => Err(e),
    }
}

proof fn lemma_skip_skip(s: Seq<bool>, a: int, b: int)
    requires
        0 <= a,
        0 <= b,
        a + b <= s.len(),
    ensures
        s.skip(a + b) == s.skip(a).skip(b),
{
    assert(s.skip(a + b) =~= s.skip(a).skip(b));
}

impl<A: Modeled> Modeled for (A,) {
    type Model = (A::Model,);

    open spec fn model(&self) -> (A::Model,) {
        (self.0.model(),)
    }
}

impl<A: BitEncode> BitEncode for (A,) {
    open spec fn spec_encode(m: (A::Model,)) -> Result<Seq<bool>, CodecError> {
        A::spec_encode(m.0)
    }

    fn encode(&self, w: &mut BitWriter) -> (res: Result<(), CodecError>) {
        let (x0,) = self;
        match x0.encode(w) {
            Ok(()) => {},
            Err(e) => {
                return Err(e);
            },
        }
        Ok(())
    }
}

impl<A: BitDecode> BitDecode for (A,) {
    open spec fn spec_decode(bits: Seq<bool>) -> Result<((A::Model,), nat), CodecError> {
        match A::spec_decode(bits) {
            Err(e) => Err(e),
            Ok((m0, k0)) => Ok(((m0,), k0)),
        }
    }

    fn decode(r: &mut BitReader) -> (res: Result<Self, CodecError>) {
        let v0 = match A::decode(r) {
            Ok(v) => v,
            Err(e) => {
                return Err(e);
            },
        };
        Ok((v0,))
    }
}

impl<A: RoundTrip> RoundTrip for (A,) {
    open spec fn spec_round_trips(m: (A::Model,)) -> bool {
        &&& A::spec_round_trips(m.0)
    }

    proof fn lemma_round_trip(x: &Self, rest: Seq<bool>) {
        let (x0,) = x;
        let e0 = A::spec_encode(x0.model())->Ok_0;
        let t1 = rest;
        let t0 = e0 + t1;
        A::lemma_round_trip(x0, t1);
        assert(e0 + t1 =~= t0);
    }
}

impl<A: Modeled, B: Modeled> Modeled for (A, B) {
    type Model = (A::Model, B::Model);

    open spec fn model(&self) -> (A::Model, B::Model) {
        (self.0.model(), self.1.model())
    }
}

impl<A: BitEncode, B: BitEncode> BitEncode for (A, B) {
    open spec fn spec_encode(m: (A::Model, B::Model)) -> Result<Seq<bool>, CodecError> {
        then_enc(A::spec_encode(m.0), B::spec_encode(m.1))
    }

    fn encode(&self, w: &mut BitWriter) -> (res: Result<(), CodecError>) {
        let ghost start = w.bits();
        let (x0, x1) = self;
        match x0.encode(w) {
            Ok(()) => {},
            Err(e) => {
                return Err(e);
            },
        }
        let ghost b1 = w.bits();
        let r1 = x1.encode(w);
        proof {
            if let (Ok(p), Ok(q)) = (A::spec_encode(x0.model()), B::spec_encode(x1.model())) {
                assert((start + p) + q =~= start + (p + q));
            }
        }
        match r1 {
            Ok(()) => {},
            Err(e) => {
                proof {
                    assert(start.is_prefix_of(b1)) by {
                        assert(start =~= b1.subrange(0, start.len() as int));
                    }
                    lemma_prefix_trans(start, b1, w.bits());
                }
                return Err(e);
            },
        }
        Ok(())
    }
}

impl<A: BitDecode, B: BitDecode> BitDecode for (A, B) {
    open spec fn spec_decode(bits: Seq<bool>) -> Result<((A::Model, B::Model), nat), CodecError> {
        match A::spec_decode(bits) {
            Err(e) => Err(e),
            Ok((m0, k0)) =>
                match B::spec_decode(bits.skip((k0) as int)) {
                    Err(e) => Err(e),
                    Ok((m1, k1)) => Ok(((m0, m1), k0 + k1)),
                },
        }
    }

    fn decode(r: &mut BitReader) -> (res: Result<Self, CodecError>) {
        let ghost s0 = r.remaining();
        let v0 = match A::decode(r) {
            Ok(v) => v,
            Err(e) => {
                return Err(e);
            },
        };
        let ghost k0 = A::spec_decode(s0)->Ok_0.1;
        let ghost s1 = r.remaining();
        let v1 = match B::decode(r) {
            Ok(v) => v,
            Err(e) => {
                proof {
                    lemma_consumed_skip(s0, s0.len() - s1.len());
                    assert(s1 =~= s0.skip(s0.len() - s1.len()));
                    lemma_consumed_trans(s0, s1, r.remaining());
                }
                return Err(e);
            },
        };
        let ghost k1 = B::spec_decode(s1)->Ok_0.1;
        let ghost s2 = r.remaining();
        proof {
            assert(s2 =~= s0.skip((k0 + k1) as int));
        }
        Ok((v0, v1))
    }
}

impl<A: RoundTrip, B: RoundTrip> RoundTrip for (A, B) {
    open spec fn spec_round_trips(m: (A::Model, B::Model)) -> bool {
        &&& A::spec_round_trips(m.0)
        &&& B::spec_round_trips(m.1)
    }

    proof fn lemma_round_trip(x: &Self, rest: Seq<bool>) {
        let (x0, x1) = x;
        let e0 = A::spec_encode(x0.model())->Ok_0;
        let e1 = B::spec_encode(x1.model())->Ok_0;
        let t2 = rest;
        let t1 = e1 + t2;
        let t0 = e0 + t1;
        A::lemma_round_trip(x0, t1);
        B::lemma_round_trip(x1, t2);
        assert(e0 + t1 =~= t0);
        assert((e0 + e1) + t2 =~= e0 + t1);
        assert(t0.skip(e0.len() as int) =~= t1);
    }
}

impl<A: Modeled, B: Modeled, C: Modeled> Modeled for (A, B, C) {
    type Model = (A::Model, B::Model, C::Model);

    open spec fn model(&self) -> (A::Model, B::Model, C::Model) {
        (self.0.model(), self.1.model(), self.2.model())
    }
}

impl<A: BitEncode, B: BitEncode, C: BitEncode> BitEncode for (A, B, C) {
    open spec fn spec_encode(m: (A::Model, B::Model, C::Model)) -> Result<Seq<bool>, CodecError> {
        then_enc(then_enc(A::spec_encode(m.0), B::spec_encode(m.1)), C::spec_encode(m.2))
    }

    fn encode(&self, w: &mut BitWriter) -> (res: Result<(), CodecError>) {
        let ghost start = w.bits();
        let (x0, x1, x2) = self;
        match x0.encode(w) {
            Ok(()) => {},
            Err(e) => {
                return Err(e);
            },
        }
        let ghost b1 = w.bits();
        let r1 = x1.encode(w);
        proof {
            if let (Ok(p), Ok(q)) = (A::spec_encode(x0.model()), B::spec_encode(x1.model())) {
                assert((start + p) + q =~= start + (p + q));
            }
        }
        match r1 {
            Ok(()) => {},
            Err(e) => {
                proof {
                    assert(start.is_prefix_of(b1)) by {
                        assert(start =~= b1.subrange(0, start.len() as int));
                    }
                    lemma_prefix_trans(start, b1, w.bits());
                }
                return Err(e);
            },
        }
        let ghost b2 = w.bits();
        let r2 = x2.encode(w);
        proof {
            if let (Ok(p), Ok(q)) = (then_enc(A::spec_encode(x0.model()), B::spec_encode(x1.model())), C::spec_encode(x2.model())) {
                assert((start + p) + q =~= start + (p + q));
            }
        }
        match r2 {
            Ok(()) => {},
            Err(e) => {
                proof {
                    assert(start.is_prefix_of(b2)) by {
                        assert(start =~= b2.subrange(0, start.len() as int));
                    }
                    lemma_prefix_trans(start, b2, w.bits());
                }
                return Err(e);
            },
        }
        Ok(())
    }
}

impl<A: BitDecode, B: BitDecode, C: BitDecode> BitDecode for (A, B, C) {
    open spec fn spec_decode(bits: Seq<bool>) -> Result<((A::Model, B::Model, C::Model), nat), CodecError> {
        match A::spec_decode(bits) {
            Err(e) => Err(e),
            Ok((m0, k0)) =>
                match B::spec_decode(bits.skip((k0) as int)) {
                    Err(e) => Err(e),
                    Ok((m1, k1)) =>
                        match C::spec_decode(bits.skip((k0 + k1) as int)) {
                            Err(e) => Err(e),
                            Ok((m2, k2)) => Ok(((m0, m1, m2), k0 + k1 + k2)),
                        },
                },
        }
    }

    fn decode(r: &mut BitReader) -> (res: Result<Self, CodecError>) {
        let ghost s0 = r.remaining();
        let v0 = match A::decode(r) {
            Ok(v) => v,
            Err(e) => {
                return Err(e);
            },
        };
        let ghost k0 = A::spec_decode(s0)->Ok_0.1;
        let ghost s1 = r.remaining();
        let v1 = match B::decode(r) {
            Ok(v) => v,
            Err(e) => {
                proof {
                    lemma_consumed_skip(s0, s0.len() - s1.len());
                    assert(s1 =~= s0.skip(s0.len() - s1.len()));
                    lemma_consumed_trans(s0, s1, r.remaining());
                }
                return Err(e);
            },
        };
        let ghost k1 = B::spec_decode(s1)->Ok_0.1;
        let ghost s2 = r.remaining();
        proof {
            assert(s2 =~= s0.skip((k0 + k1) as int));
        }
        let v2 = match C::decode(r) {
            Ok(v) => v,
            Err(e) => {
                proof {
                    lemma_consumed_skip(s0, s0.len() - s2.len());
                    assert(s2 =~= s0.skip(s0.len() - s2.len()));
                    lemma_consumed_trans(s0, s2, r.remaining());
                }
                return Err(e);
            },
        };
        let ghost k2 = C::spec_decode(s2)->Ok_0.1;
        let ghost s3 = r.remaining();
        proof {
            assert(s3 =~= s0.skip((k0 + k1 + k2) as int));
        }
        Ok((v0, v1, v2))
    }
}

impl<A: RoundTrip, B: RoundTrip, C: RoundTrip> RoundTrip for (A, B, C) {
    open spec fn spec_round_trips(m: (A::Model, B::Model, C::Model)) -> bool {
        &&& A::spec_round_trips(m.0)
        &&& B::spec_round_trips(m.1)
        &&& C::spec_round_trips(m.2)
    }

    proof fn lemma_round_trip(x: &Self, rest: Seq<bool>) {
        let (x0, x1, x2) = x;
        let e0 = A::spec_encode(x0.model())->Ok_0;
        let e1 = B::spec_encode(x1.model())->Ok_0;
        let e2 = C::spec_encode(x2.model())->Ok_0;
        let t3 = rest;
        let t2 = e2 + t3;
        let t1 = e1 + t2;
        let t0 = e0 + t1;
        A::lemma_round_trip(x0, t1);
        B::lemma_round_trip(x1, t2);
        C::lemma_round_trip(x2, t3);
        assert(e0 + t1 =~= t0);
        assert((e0 + e1) + t2 =~= e0 + t1);
        assert(((e0 + e1) + e2) + t3 =~= (e0 + e1) + t2);
        assert(t0.skip(e0.len() as int) =~= t1);
        lemma_skip_skip(t0, (e0.len()) as int, e1.len() as int);
        assert(t1.skip(e1.len() as int) =~= t2);
    }
}

impl<A: Modeled, B: Modeled, C: Modeled, D: Modeled> Modeled for (A, B, C, D) {
    type Model = (A::Model, B::Model, C::Model, D::Model);

    open spec fn model(&self) -> (A::Model, B::Model, C::Model, D::Model) {
        (self.0.model(), self.1.model(), self.2.model(), self.3.model())
    }
}

impl<A: BitEncode, B: BitEncode, C: BitEncode, D: BitEncode> BitEncode for (A, B, C, D) {
    open spec fn spec_encode(m: (A::Model, B::Model, C::Model, D::Model)) -> Result<Seq<bool>, CodecError> {
        then_enc(then_enc(then_enc(A::spec_encode(m.0), B::spec_encode(m.1)), C::spec_encode(m.2)), D::spec_encode(m.3))
    }

    fn encode(&self, w: &mut BitWriter) -> (res: Result<(), CodecError>) {
        let ghost start = w.bits();
        let (x0, x1, x2, x3) = self;
        match x0.encode(w) {
            Ok(()) => {},
            Err(e) => {
                return Err(e);
            },
        }
        let ghost b1 = w.bits();
        let r1 = x1.encode(w);
        proof {
            if let (Ok(p), Ok(q)) = (A::spec_encode(x0.model()), B::spec_encode(x1.model())) {
                assert((start + p) + q =~= start + (p + q));
            }
        }
        match r1 {
            Ok(()) => {},
            Err(e) => {
                proof {
                    assert(start.is_prefix_of(b1)) by {
                        assert(start =~= b1.subrange(0, start.len() as int));
                    }
                    lemma_prefix_trans(start, b1, w.bits());
                }
                return Err(e);
            },
        }
        let ghost b2 = w.bits();
        let r2 = x2.encode(w);
        proof {
            if let (Ok(p), Ok(q)) = (then_enc(A::spec_encode(x0.model()), B::spec_encode(x1.model())), C::spec_encode(x2.model())) {
                assert((start + p) + q =~= start + (p + q));
            }
        }
        match r2 {
            Ok(()) => {},
            Err(e) => {
                proof {
                    assert(start.is_prefix_of(b2)) by {
                        assert(start =~= b2.subrange(0, start.len() as int));
                    }
                    lemma_prefix_trans(start, b2, w.bits());
                }
                return Err(e);
            },
        }
        let ghost b3 = w.bits();
        let r3 = x3.encode(w);
        proof {
            if let (Ok(p), Ok(q)) = (then_enc(then_enc(A::spec_encode(x0.model()), B::spec_encode(x1.model())), C::spec_encode(x2.model())), D::spec_encode(x3.model())) {
                assert((start + p) + q =~= start + (p + q));
            }
        }
        match r3 {
            Ok(()) => {},
            Err(e) => {
                proof {
                    assert(start.is_prefix_of(b3)) by {
                        assert(start =~= b3.subrange(0, start.len() as int));
                    }
                    lemma_prefix_trans(start, b3, w.bits());
                }
                return Err(e);
            },
        }
        Ok(())
    }
}

impl<A: BitDecode, B: BitDecode, C: BitDecode, D: BitDecode> BitDecode for (A, B, C, D) {
    open spec fn spec_decode(bits: Seq<bool>) -> Result<((A::Model, B::Model, C::Model, D::Model), nat), CodecError> {
        match A::spec_decode(bits) {
            Err(e) => Err(e),
            Ok((m0, k0)) =>
                match B::spec_decode(bits.skip((k0) as int)) {
                    Err(e) => Err(e),
                    Ok((m1, k1)) =>
                        match C::spec_decode(bits.skip((k0 + k1) as int)) {
                            Err(e) => Err(e),
                            Ok((m2, k2)) =>
                                match D::spec_decode(bits.skip((k0 + k1 + k2) as int)) {
                                    Err(e) => Err(e),
                                    Ok((m3, k3)) => Ok(((m0, m1, m2, m3), k0 + k1 + k2 + k3)),
                                },
                        },
                },
        }
    }

    fn decode(r: &mut BitReader) -> (res: Result<Self, CodecError>) {
        let ghost s0 = r.remaining();
        let v0 = match A::decode(r) {
            Ok(v) => v,
            Err(e) => {
                return Err(e);
            },
        };
        let ghost k0 = A::spec_decode(s0)->Ok_0.1;
        let ghost s1 = r.remaining();
        let v1 = match B::decode(r) {
            Ok(v) => v,
            Err(e) => {
                proof {
                    lemma_consumed_skip(s0, s0.len() - s1.len());
                    assert(s1 =~= s0.skip(s0.len() - s1.len()));
                    lemma_consumed_trans(s0, s1, r.remaining());
                }
                return Err(e);
            },
        };
        let ghost k1 = B::spec_decode(s1)->Ok_0.1;
        let ghost s2 = r.remaining();
        proof {
            assert(s2 =~= s0.skip((k0 + k1) as int));
        }
        let v2 = match C::decode(r) {
            Ok(v) => v,
            Err(e) => {
                proof {
                    lemma_consumed_skip(s0, s0.len() - s2.len());
                    assert(s2 =~= s0.skip(s0.len() - s2.len()));
                    lemma_consumed_trans(s0, s2, r.remaining());
                }
                return Err(e);
            },
        };
        let ghost k2 = C::spec_decode(s2)->Ok_0.1;
        let ghost s3 = r.remaining();
        proof {
            assert(s3 =~= s0.skip((k0 + k1 + k2) as int));
        }
        let v3 = match D::decode(r) {
            Ok(v) => v,
            Err(e) => {
                proof {
                    lemma_consumed_skip(s0, s0.len() - s3.len());
                    assert(s3 =~= s0.skip(s0.len() - s3.len()));
                    lemma_consumed_trans(s0, s3, r.remaining());
                }
                return Err(e);
            },
        };
        let ghost k3 = D::spec_decode(s3)->Ok_0.1;
        let ghost s4 = r.remaining();
        proof {
            assert(s4 =~= s0.skip((k0 + k1 + k2 + k3) as int));
        }
        Ok((v0, v1, v2, v3))
    }
}

impl<A: RoundTrip, B: RoundTrip, C: RoundTrip, D: RoundTrip> RoundTrip for (A, B, C, D) {
    open spec fn spec_round_trips(m: (A::Model, B::Model, C::Model, D::Model)) -> bool {
        &&& A::spec_round_trips(m.0)
        &&& B::spec_round_trips(m.1)
        &&& C::spec_round_trips(m.2)
        &&& D::spec_round_trips(m.3)
    }

    proof fn lemma_round_trip(x: &Self, rest: Seq<bool>) {
        let (x0, x1, x2, x3) = x;
        let e0 = A::spec_encode(x0.model())->Ok_0;
        let e1 = B::spec_encode(x1.model())->Ok_0;
        let e2 = C::spec_encode(x2.model())->Ok_0;
        let e3 = D::spec_encode(x3.model())->Ok_0;
        let t4 = rest;
        let t3 = e3 + t4;
        let t2 = e2 + t3;
        let t1 = e1 + t2;
        let t0 = e0 + t1;
        A::lemma_round_trip(x0, t1);
        B::lemma_round_trip(x1, t2);
        C::lemma_round_trip(x2, t3);
        D::lemma_round_trip(x3, t4);
        assert(e0 + t1 =~= t0);
        assert((e0 + e1) + t2 =~= e0 + t1);
        assert(((e0 + e1) + e2) + t3 =~= (e0 + e1) + t2);
        assert((((e0 + e1) + e2) + e3) + t4 =~= ((e0 + e1) + e2) + t3);
        assert(t0.skip(e0.len() as int) =~= t1);
        lemma_skip_skip(t0, (e0.len()) as int, e1.len() as int);
        assert(t1.skip(e1.len() as int) =~= t2);
        lemma_skip_skip(t0, (e0.len() + e1.len()) as int, e2.len() as int);
        assert(t2.skip(e2.len() as int) =~= t3);
    }
}

impl<A: Modeled, B: Modeled, C: Modeled, D: Modeled, E: Modeled> Modeled for (A, B, C, D, E) {
    type Model = (A::Model, B::Model, C::Model, D::Model, E::Model);

    open spec fn model(&self) -> (A::Model, B::Model, C::Model, D::Model, E::Model) {
        (self.0.model(), self.1.model(), self.2.model(), self.3.model(), self.4.model())
    }
}

impl<A: BitEncode, B: BitEncode, C: BitEncode, D: BitEncode, E: BitEncode> BitEncode for (A, B, C, D, E) {
    open spec fn spec_encode(m: (A::Model, B::Model, C::Model, D::Model, E::Model)) -> Result<Seq<bool>, CodecError> {
        then_enc(then_enc(then_enc(then_enc(A::spec_encode(m.0), B::spec_encode(m.1)), C::spec_encode(m.2)), D::spec_encode(m.3)), E::spec_encode(m.4))
    }

    fn encode(&self, w: &mut BitWriter) -> (res: Result<(), CodecError>) {
        let ghost start = w.bits();
        let (x0, x1, x2, x3, x4) = self;
        match x0.encode(w) {
            Ok(()) => {},
            Err(e) => {
                return Err(e);
            },
        }
        let ghost b1 = w.bits();
        let r1 = x1.encode(w);
        proof {
            if let (Ok(p), Ok(q)) = (A::spec_encode(x0.model()), B::spec_encode(x1.model())) {
                assert((start + p) + q =~= start + (p + q));
            }
        }
        match r1 {
            Ok(()) => {},
            Err(e) => {
                proof {
                    assert(start.is_prefix_of(b1)) by {
                        assert(start =~= b1.subrange(0, start.len() as int));
                    }
                    lemma_prefix_trans(start, b1, w.bits());
                }
                return Err(e);
            },
        }
        let ghost b2 = w.bits();
        let r2 = x2.encode(w);
        proof {
            if let (Ok(p), Ok(q)) = (then_enc(A::spec_encode(x0.model()), B::spec_encode(x1.model())), C::spec_encode(x2.model())) {
                assert((start + p) + q =~= start + (p + q));
            }
        }
        match r2 {
            Ok(()) => {},
            Err(e) => {
                proof {
                    assert(start.is_prefix_of(b2)) by {
                        assert(start =~= b2.subrange(0, start.len() as int));
                    }
                    lemma_prefix_trans(start, b2, w.bits());
                }
                return Err(e);
            },
        }
        let ghost b3 = w.bits();
        let r3 = x3.encode(w);
        proof {
            if let (Ok(p), Ok(q)) = (then_enc(then_enc(A::spec_encode(x0.model()), B::spec_encode(x1.model())), C::spec_encode(x2.model())), D::spec_encode(x3.model())) {
                assert((start + p) + q =~= start + (p + q));
            }
        }
        match r3 {
            Ok(()) => {},
            Err(e) => {
                proof {
                    assert(start.is_prefix_of(b3)) by {
                        assert(start =~= b3.subrange(0, start.len() as int));
                    }
                    lemma_prefix_trans(start, b3, w.bits());
                }
                return Err(e);
            },
        }
        let ghost b4 = w.bits();
        let r4 = x4.encode(w);
        proof {
            if let (Ok(p), Ok(q)) = (then_enc(then_enc(then_enc(A::spec_encode(x0.model()), B::spec_encode(x1.model())), C::spec_encode(x2.model())), D::spec_encode(x3.model())), E::spec_encode(x4.model())) {
                assert((start + p) + q =~= start + (p + q));
            }
        }
        match r4 {
            Ok(()) => {},
            Err(e) => {
                proof {
                    assert(start.is_prefix_of(b4)) by {
                        assert(start =~= b4.subrange(0, start.len() as int));
                    }
                    lemma_prefix_trans(start, b4, w.bits());
                }
                return Err(e);
            },
        }
        Ok(())
    }
}

impl<A: BitDecode, B: BitDecode, C: BitDecode, D: BitDecode, E: BitDecode> BitDecode for (A, B, C, D, E) {
    open spec fn spec_decode(bits: Seq<bool>) -> Result<((A::Model, B::Model, C::Model, D::Model, E::Model), nat), CodecError> {
        match A::spec_decode(bits) {
            Err(e) => Err(e),
            Ok((m0, k0)) =>
                match B::spec_decode(bits.skip((k0) as int)) {
                    Err(e) => Err(e),
                    Ok((m1, k1)) =>
                        match C::spec_decode(bits.skip((k0 + k1) as int)) {
                            Err(e) => Err(e),
                            Ok((m2, k2)) =>
                                match D::spec_decode(bits.skip((k0 + k1 + k2) as int)) {
                                    Err(e) => Err(e),
                                    Ok((m3, k3)) =>
                                        match E::spec_decode(bits.skip((k0 + k1 + k2 + k3) as int)) {
                                            Err(e) => Err(e),
                                            Ok((m4, k4)) => Ok(((m0, m1, m2, m3, m4), k0 + k1 + k2 + k3 + k4)),
                                        },
                                },
                        },
                },
        }
    }

    fn decode(r: &mut BitReader) -> (res: Result<Self, CodecError>) {
        let ghost s0 = r.remaining();
        let v0 = match A::decode(r) {
            Ok(v) => v,
            Err(e) => {
                return Err(e);
            },
        };
        let ghost k0 = A::spec_decode(s0)->Ok_0.1;
        let ghost s1 = r.remaining();
        let v1 = match B::decode(r) {
            Ok(v) => v,
            Err(e) => {
                proof {
                    lemma_consumed_skip(s0, s0.len() - s1.len());
                    assert(s1 =~= s0.skip(s0.len() - s1.len()));
                    lemma_consumed_trans(s0, s1, r.remaining());
                }
                return Err(e);
            },
        };
        let ghost k1 = B::spec_decode(s1)->Ok_0.1;
        let ghost s2 = r.remaining();
        proof {
            assert(s2 =~= s0.skip((k0 + k1) as int));
        }
        let v2 = match C::decode(r) {
            Ok(v) => v,
            Err(e) => {
                proof {
                    lemma_consumed_skip(s0, s0.len() - s2.len());
                    assert(s2 =~= s0.skip(s0.len() - s2.len()));
                    lemma_consumed_trans(s0, s2, r.remaining());
                }
                return Err(e);
            },
        };
        let ghost k2 = C::spec_decode(s2)->Ok_0.1;
        let ghost s3 = r.remaining();
        proof {
            assert(s3 =~= s0.skip((k0 + k1 + k2) as int));
        }
        let v3 = match D::decode(r) {
            Ok(v) => v,
            Err(e) => {
                proof {
                    lemma_consumed_skip(s0, s0.len() - s3.len());
                    assert(s3 =~= s0.skip(s0.len() - s3.len()));
                    lemma_consumed_trans(s0, s3, r.remaining());
                }
                return Err(e);
            },
        };
        let ghost k3 = D::spec_decode(s3)->Ok_0.1;
        let ghost s4 = r.remaining();
        proof {
            assert(s4 =~= s0.skip((k0 + k1 + k2 + k3) as int));
        }
        let v4 = match E::decode(r) {
            Ok(v) => v,
            Err(e) => {
                proof {
                    lemma_consumed_skip(s0, s0.len() - s4.len());
                    assert(s4 =~= s0.skip(s0.len() - s4.len()));
                    lemma_consumed_trans(s0, s4, r.remaining());
                }
                return Err(e);
            },
        };
        let ghost k4 = E::spec_decode(s4)->Ok_0.1;
        let ghost s5 = r.remaining();
        proof {
            assert(s5 =~= s0.skip((k0 + k1 + k2 + k3 + k4) as int));
        }
        Ok((v0, v1, v2, v3, v4))
    }
}

impl<A: RoundTrip, B: RoundTrip, C: RoundTrip, D: RoundTrip, E: RoundTrip> RoundTrip for (A, B, C, D, E) {
    open spec fn spec_round_trips(m: (A::Model, B::Model, C::Model, D::Model, E::Model)) -> bool {
        &&& A::spec_round_trips(m.0)
        &&& B::spec_round_trips(m.1)
        &&& C::spec_round_trips(m.2)
        &&& D::spec_round_trips(m.3)
        &&& E::spec_round_trips(m.4)
    }

    proof fn lemma_round_trip(x: &Self, rest: Seq<bool>) {
        let (x0, x1, x2, x3, x4) = x;
        let e0 = A::spec_encode(x0.model())->Ok_0;
        let e1 = B::spec_encode(x1.model())->Ok_0;
        let e2 = C::spec_encode(x2.model())->Ok_0;
        let e3 = D::spec_encode(x3.model())->Ok_0;
        let e4 = E::spec_encode(x4.model())->Ok_0;
        let t5 = rest;
        let t4 = e4 + t5;
        let t3 = e3 + t4;
        let t2 = e2 + t3;
        let t1 = e1 + t2;
        let t0 = e0 + t1;
        A::lemma_round_trip(x0, t1);
        B::lemma_round_trip(x1, t2);
        C::lemma_round_trip(x2, t3);
        D::lemma_round_trip(x3, t4);
        E::lemma_round_trip(x4, t5);
        assert(e0 + t1 =~= t0);
        assert((e0 + e1) + t2 =~= e0 + t1);
        assert(((e0 + e1) + e2) + t3 =~= (e0 + e1) + t2);
        assert((((e0 + e1) + e2) + e3) + t4 =~= ((e0 + e1) + e2) + t3);
        assert(((((e0 + e1) + e2) + e3) + e4) + t5 =~= (((e0 + e1) + e2) + e3) + t4);
        assert(t0.skip(e0.len() as int) =~= t1);
        lemma_skip_skip(t0, (e0.len()) as int, e1.len() as int);
        assert(t1.skip(e1.len() as int) =~= t2);
        lemma_skip_skip(t0, (e0.len() + e1.len()) as int, e2.len() as int);
        assert(t2.skip(e2.len() as int) =~= t3);
        lemma_skip_skip(t0, (e0.len() + e1.len() + e2.len()) as int, e3.len() as int);
        assert(t3.skip(e3.len() as int) =~= t4);
    }
}

impl<A: Modeled, B: Modeled, C: Modeled, D: Modeled, E: Modeled, F: Modeled> Modeled for (A, B, C, D, E, F) {
    type Model = (A::Model, B::Model, C::Model, D::Model, E::Model, F::Model);

    open spec fn model(&self) -> (A::Model, B::Model, C::Model, D::Model, E::Model, F::Model) {
        (self.0.model(), self.1.model(), self.2.model(), self.3.model(), self.4.model(), self.5.model())
    }
}

impl<A: BitEncode, B: BitEncode, C: BitEncode, D: BitEncode, E: BitEncode, F: BitEncode> BitEncode for (A, B, C, D, E, F) {
    open spec fn spec_encode(m: (A::Model, B::Model, C::Model, D::Model, E::Model, F::Model)) -> Result<Seq<bool>, CodecError> {
        then_enc(then_enc(then_enc(then_enc(then_enc(A::spec_encode(m.0), B::spec_encode(m.1)), C::spec_encode(m.2)), D::spec_encode(m.3)), E::spec_encode(m.4)), F::spec_encode(m.5))
    }

    fn encode(&self, w: &mut BitWriter) -> (res: Result<(), CodecError>) {
        let ghost start = w.bits();
        let (x0, x1, x2, x3, x4, x5) = self;
        match x0.encode(w) {
            Ok(()) => {},
            Err(e) => {
                return Err(e);
            },
        }
        let ghost b1 = w.bits();
        let r1 = x1.encode(w);
        proof {
            if let (Ok(p), Ok(q)) = (A::spec_encode(x0.model()), B::spec_encode(x1.model())) {
                assert((start + p) + q =~= start + (p + q));
            }
        }
        match r1 {
            Ok(()) => {},
            Err(e) => {
                proof {
                    assert(start.is_prefix_of(b1)) by {
                        assert(start =~= b1.subrange(0, start.len() as int));
                    }
                    lemma_prefix_trans(start, b1, w.bits());
                }
                return Err(e);
            },
        }
        let ghost b2 = w.bits();
        let r2 = x2.encode(w);
        proof {
            if let (Ok(p), Ok(q)) = (then_enc(A::spec_encode(x0.model()), B::spec_encode(x1.model())), C::spec_encode(x2.model())) {
                assert((start + p) + q =~= start + (p + q));
            }
        }
        match r2 {
            Ok(()) => {},
            Err(e) => {
                proof {
                    assert(start.is_prefix_of(b2)) by {
                        assert(start =~= b2.subrange(0, start.len() as int));
                    }
                    lemma_prefix_trans(start, b2, w.bits());
                }
                return Err(e);
            },
        }
        let ghost b3 = w.bits();
        let r3 = x3.encode(w);
        proof {
            if let (Ok(p), Ok(q)) = (then_enc(then_enc(A::spec_encode(x0.model()), B::spec_encode(x1.model())), C::spec_encode(x2.model())), D::spec_encode(x3.model())) {
                assert((start + p) + q =~= start + (p + q));
            }
        }
        match r3 {
            Ok(()) => {},
            Err(e) => {
                proof {
                    assert(start.is_prefix_of(b3)) by {
                        assert(start =~= b3.subrange(0, start.len() as int));
                    }
                    lemma_prefix_trans(start, b3, w.bits());
                }
                return Err(e);
            },
        }
        let ghost b4 = w.bits();
        let r4 = x4.encode(w);
        proof {
            if let (Ok(p), Ok(q)) = (then_enc(then_enc(then_enc(A::spec_encode(x0.model()), B::spec_encode(x1.model())), C::spec_encode(x2.model())), D::spec_encode(x3.model())), E::spec_encode(x4.model())) {
                assert((start + p) + q =~= start + (p + q));
            }
        }
        match r4 {
            Ok(()) => {},
            Err(e) => {
                proof {
                    assert(start.is_prefix_of(b4)) by {
                        assert(start =~= b4.subrange(0, start.len() as int));
                    }
                    lemma_prefix_trans(start, b4, w.bits());
                }
                return Err(e);
            },
        }
        let ghost b5 = w.bits();
        let r5 = x5.encode(w);
        proof {
            if let (Ok(p), Ok(q)) = (then_enc(then_enc(then_enc(then_enc(A::spec_encode(x0.model()), B::spec_encode(x1.model())), C::spec_encode(x2.model())), D::spec_encode(x3.model())), E::spec_encode(x4.model())), F::spec_encode(x5.model())) {
                assert((start + p) + q =~= start + (p + q));
            }
        }
        match r5 {
            Ok(()) => {},
            Err(e) => {
                proof {
                    assert(start.is_prefix_of(b5)) by {
                        assert(start =~= b5.subrange(0, start.len() as int));
                    }
                    lemma_prefix_trans(start, b5, w.bits());
                }
                return Err(e);
            },
        }
        Ok(())
    }
}

impl<A: BitDecode, B: BitDecode, C: BitDecode, D: BitDecode, E: BitDecode, F: BitDecode> BitDecode for (A, B, C, D, E, F) {
    open spec fn spec_decode(bits: Seq<bool>) -> Result<((A::Model, B::Model, C::Model, D::Model, E::Model, F::Model), nat), CodecError> {
        match A::spec_decode(bits) {
            Err(e) => Err(e),
            Ok((m0, k0)) =>
                match B::spec_decode(bits.skip((k0) as int)) {
                    Err(e) => Err(e),
                    Ok((m1, k1)) =>
                        match C::spec_decode(bits.skip((k0 + k1) as int)) {
                            Err(e) => Err(e),
                            Ok((m2, k2)) =>
                                match D::spec_decode(bits.skip((k0 + k1 + k2) as int)) {
                                    Err(e) => Err(e),
                                    Ok((m3, k3)) =>
                                        match E::spec_decode(bits.skip((k0 + k1 + k2 + k3) as int)) {
                                            Err(e) => Err(e),
                                            Ok((m4, k4)) =>
                                                match F::spec_decode(bits.skip((k0 + k1 + k2 + k3 + k4) as int)) {
                                                    Err(e) => Err(e),
                                                    Ok((m5, k5)) => Ok(((m0, m1, m2, m3, m4, m5), k0 + k1 + k2 + k3 + k4 + k5)),
                                                },
                                        },
                                },
                        },
                },
        }
    }

    fn decode(r: &mut BitReader) -> (res: Result<Self, CodecError>) {
        let ghost s0 = r.remaining();
        let v0 = match A::decode(r) {
            Ok(v) => v,
            Err(e) => {
                return Err(e);
            },
        };
        let ghost k0 = A::spec_decode(s0)->Ok_0.1;
        let ghost s1 = r.remaining();
        let v1 = match B::decode(r) {
            Ok(v) => v,
            Err(e) => {
                proof {
                    lemma_consumed_skip(s0, s0.len() - s1.len());
                    assert(s1 =~= s0.skip(s0.len() - s1.len()));
                    lemma_consumed_trans(s0, s1, r.remaining());
                }
                return Err(e);
            },
        };
        let ghost k1 = B::spec_decode(s1)->Ok_0.1;
        let ghost s2 = r.remaining();
        proof {
            assert(s2 =~= s0.skip((k0 + k1) as int));
        }
        let v2 = match C::decode(r) {
            Ok(v) => v,
            Err(e) => {
                proof {
                    lemma_consumed_skip(s0, s0.len() - s2.len());
                    assert(s2 =~= s0.skip(s0.len() - s2.len()));
                    lemma_consumed_trans(s0, s2, r.remaining());
                }
                return Err(e);
            },
        };
        let ghost k2 = C::spec_decode(s2)->Ok_0.1;
        let ghost s3 = r.remaining();
        proof {
            assert(s3 =~= s0.skip((k0 + k1 + k2) as int));
        }
        let v3 = match D::decode(r) {
            Ok(v) => v,
            Err(e) => {
                proof {
                    lemma_consumed_skip(s0, s0.len() - s3.len());
                    assert(s3 =~= s0.skip(s0.len() - s3.len()));
                    lemma_consumed_trans(s0, s3, r.remaining());
                }
                return Err(e);
            },
        };
        let ghost k3 = D::spec_decode(s3)->Ok_0.1;
        let ghost s4 = r.remaining();
        proof {
            assert(s4 =~= s0.skip((k0 + k1 + k2 + k3) as int));
        }
        let v4 = match E::decode(r) {
            Ok(v) => v,
            Err(e) => {
                proof {
                    lemma_consumed_skip(s0, s0.len() - s4.len());
                    assert(s4 =~= s0.skip(s0.len() - s4.len()));
                    lemma_consumed_trans(s0, s4, r.remaining());
                }
                return Err(e);
            },
        };
        let ghost k4 = E::spec_decode(s4)->Ok_0.1;
        let ghost s5 = r.remaining();
        proof {
            assert(s5 =~= s0.skip((k0 + k1 + k2 + k3 + k4) as int));
        }
        let v5 = match F::decode(r) {
            Ok(v) => v,
            Err(e) => {
                proof {
                    lemma_consumed_skip(s0, s0.len() - s5.len());
                    assert(s5 =~= s0.skip(s0.len() - s5.len()));
                    lemma_consumed_trans(s0, s5, r.remaining());
                }
                return Err(e);
            },
        };
        let ghost k5 = F::spec_decode(s5)->Ok_0.1;
        let ghost s6 = r.remaining();
        proof {
            assert(s6 =~= s0.skip((k0 + k1 + k2 + k3 + k4 + k5) as int));
        }
        Ok((v0, v1, v2, v3, v4, v5))
    }
}

impl<A: RoundTrip, B: RoundTrip, C: RoundTrip, D: RoundTrip, E: RoundTrip, F: RoundTrip> RoundTrip for (A, B, C, D, E, F) {
    open spec fn spec_round_trips(m: (A::Model, B::Model, C::Model, D::Model, E::Model, F::Model)) -> bool {
        &&& A::spec_round_trips(m.0)
        &&& B::spec_round_trips(m.1)
        &&& C::spec_round_trips(m.2)
        &&& D::spec_round_trips(m.3)
        &&& E::spec_round_trips(m.4)
        &&& F::spec_round_trips(m.5)
    }

    proof fn lemma_round_trip(x: &Self, rest: Seq<bool>) {
        let (x0, x1, x2, x3, x4, x5) = x;
        let e0 = A::spec_encode(x0.model())->Ok_0;
        let e1 = B::spec_encode(x1.model())->Ok_0;
        let e2 = C::spec_encode(x2.model())->Ok_0;
        let e3 = D::spec_encode(x3.model())->Ok_0;
        let e4 = E::spec_encode(x4.model())->Ok_0;
        let e5 = F::spec_encode(x5.model())->Ok_0;
        let t6 = rest;
        let t5 = e5 + t6;
        let t4 = e4 + t5;
        let t3 = e3 + t4;
        let t2 = e2 + t3;
        let t1 = e1 + t2;
        let t0 = e0 + t1;
        A::lemma_round_trip(x0, t1);
        B::lemma_round_trip(x1, t2);
        C::lemma_round_trip(x2, t3);
        D::lemma_round_trip(x3, t4);
        E::lemma_round_trip(x4, t5);
        F::lemma_round_trip(x5, t6);
        assert(e0 + t1 =~= t0);
        assert((e0 + e1) + t2 =~= e0 + t1);
        assert(((e0 + e1) + e2) + t3 =~= (e0 + e1) + t2);
        assert((((e0 + e1) + e2) + e3) + t4 =~= ((e0 + e1) + e2) + t3);
        assert(((((e0 + e1) + e2) + e3) + e4) + t5 =~= (((e0 + e1) + e2) + e3) + t4);
        assert((((((e0 + e1) + e2) + e3) + e4) + e5) + t6 =~= ((((e0 + e1) + e2) + e3) + e4) + t5);
        assert(t0.skip(e0.len() as int) =~= t1);
        lemma_skip_skip(t0, (e0.len()) as int, e1.len() as int);
        assert(t1.skip(e1.len() as int) =~= t2);
        lemma_skip_skip(t0, (e0.len() + e1.len()) as int, e2.len() as int);
        assert(t2.skip(e2.len() as int) =~= t3);
        lemma_skip_skip(t0, (e0.len() + e1.len() + e2.len()) as int, e3.len() as int);
        assert(t3.skip(e3.len() as int) =~= t4);
        lemma_skip_skip(t0, (e0.len() + e1.len() + e2.len() + e3.len()) as int, e4.len() as int);
        assert(t4.skip(e4.len() as int) =~= t5);
    }
}

impl<A: Modeled, B: Modeled, C: Modeled, D: Modeled, E: Modeled, F: Modeled, G: Modeled> Modeled for (A, B, C, D, E, F, G) {
    type Model = (A::Model, B::Model, C::Model, D::Model, E::Model, F::Model, G::Model);

    open spec fn model(&self) -> (A::Model, B::Model, C::Model, D::Model, E::Model, F::Model, G::Model) {
        (self.0.model(), self.1.model(), self.2.model(), self.3.model(), self.4.model(), self.5.model(), self.6.model())
    }
}

impl<A: BitEncode, B: BitEncode, C: BitEncode, D: BitEncode, E: BitEncode, F: BitEncode, G: BitEncode> BitEncode for (A, B, C, D, E, F, G) {
    open spec fn spec_encode(m: (A::Model, B::Model, C::Model, D::Model, E::Model, F::Model, G::Model)) -> Result<Seq<bool>, CodecError> {
        then_enc(then_enc(then_enc(then_enc(then_enc(then_enc(A::spec_encode(m.0), B::spec_encode(m.1)), C::spec_encode(m.2)), D::spec_encode(m.3)), E::spec_encode(m.4)), F::spec_encode(m.5)), G::spec_encode(m.6))
    }

    fn encode(&self, w: &mut BitWriter) -> (res: Result<(), CodecError>) {
        let ghost start = w.bits();
        let (x0, x1, x2, x3, x4, x5, x6) = self;
        match x0.encode(w) {
            Ok(()) => {},
            Err(e) => {
                return Err(e);
            },
        }
        let ghost b1 = w.bits();
        let r1 = x1.encode(w);
        proof {
            if let (Ok(p), Ok(q)) = (A::spec_encode(x0.model()), B::spec_encode(x1.model())) {
                assert((start + p) + q =~= start + (p + q));
            }
        }
        match r1 {
            Ok(()) => {},
            Err(e) => {
                proof {
                    assert(start.is_prefix_of(b1)) by {
                        assert(start =~= b1.subrange(0, start.len() as int));
                    }
                    lemma_prefix_trans(start, b1, w.bits());
                }
                return Err(e);
            },
        }
        let ghost b2 = w.bits();
        let r2 = x2.encode(w);
        proof {
            if let (Ok(p), Ok(q)) = (then_enc(A::spec_encode(x0.model()), B::spec_encode(x1.model())), C::spec_encode(x2.model())) {
                assert((start + p) + q =~= start + (p + q));
            }
        }
        match r2 {
            Ok(()) => {},
            Err(e) => {
                proof {
                    assert(start.is_prefix_of(b2)) by {
                        assert(start =~= b2.subrange(0, start.len() as int));
                    }
                    lemma_prefix_trans(start, b2, w.bits());
                }
                return Err(e);
            },
        }
        let ghost b3 = w.bits();
        let r3 = x3.encode(w);
        proof {
            if let (Ok(p), Ok(q)) = (then_enc(then_enc(A::spec_encode(x0.model()), B::spec_encode(x1.model())), C::spec_encode(x2.model())), D::spec_encode(x3.model())) {
                assert((start + p) + q =~= start + (p + q));
            }
        }
        match r3 {
            Ok(()) => {},
            Err(e) => {
                proof {
                    assert(start.is_prefix_of(b3)) by {
                        assert(start =~= b3.subrange(0, start.len() as int));
                    }
                    lemma_prefix_trans(start, b3, w.bits());
                }
                return Err(e);
            },
        }
        let ghost b4 = w.bits();
        let r4 = x4.encode(w);
        proof {
            if let (Ok(p), Ok(q)) = (then_enc(then_enc(then_enc(A::spec_encode(x0.model()), B::spec_encode(x1.model())), C::spec_encode(x2.model())), D::spec_encode(x3.model())), E::spec_encode(x4.model())) {
                assert((start + p) + q =~= start + (p + q));
            }
        }
        match r4 {
            Ok(()) => {},
            Err(e) => {
                proof {
                    assert(start.is_prefix_of(b4)) by {
                        assert(start =~= b4.subrange(0, start.len() as int));
                    }
                    lemma_prefix_trans(start, b4, w.bits());
                }
                return Err(e);
            },
        }
        let ghost b5 = w.bits();
        let r5 = x5.encode(w);
        proof {
            if let (Ok(p), Ok(q)) = (then_enc(then_enc(then_enc(then_enc(A::spec_encode(x0.model()), B::spec_encode(x1.model())), C::spec_encode(x2.model())), D::spec_encode(x3.model())), E::spec_encode(x4.model())), F::spec_encode(x5.model())) {
                assert((start + p) + q =~= start + (p + q));
            }
        }
        match r5 {
            Ok(()) => {},
            Err(e) => {
                proof {
                    assert(start.is_prefix_of(b5)) by {
                        assert(start =~= b5.subrange(0, start.len() as int));
                    }
                    lemma_prefix_trans(start, b5, w.bits());
                }
                return Err(e);
            },
        }
        let ghost b6 = w.bits();
        let r6 = x6.encode(w);
        proof {
            if let (Ok(p), Ok(q)) = (then_enc(then_enc(then_enc(then_enc(then_enc(A::spec_encode(x0.model()), B::spec_encode(x1.model())), C::spec_encode(x2.model())), D::spec_encode(x3.model())), E::spec_encode(x4.model())), F::spec_encode(x5.model())), G::spec_encode(x6.model())) {
                assert((start + p) + q =~= start + (p + q));
            }
        }
        match r6 {
            Ok(()) => {},
            Err(e) => {
                proof {
                    assert(start.is_prefix_of(b6)) by {
                        assert(start =~= b6.subrange(0, start.len() as int));
                    }
                    lemma_prefix_trans(start, b6, w.bits());
                }
                return Err(e);
            },
        }
        Ok(())
    }
}

impl<A: BitDecode, B: BitDecode, C: BitDecode, D: BitDecode, E: BitDecode, F: BitDecode, G: BitDecode> BitDecode for (A, B, C, D, E, F, G) {
    open spec fn spec_decode(bits: Seq<bool>) -> Result<((A::Model, B::Model, C::Model, D::Model, E::Model, F::Model, G::Model), nat), CodecError> {
        match A::spec_decode(bits) {
            Err(e) => Err(e),
            Ok((m0, k0)) =>
                match B::spec_decode(bits.skip((k0) as int)) {
                    Err(e) => Err(e),
                    Ok((m1, k1)) =>
                        match C::spec_decode(bits.skip((k0 + k1) as int)) {
                            Err(e) => Err(e),
                            Ok((m2, k2)) =>
                                match D::spec_decode(bits.skip((k0 + k1 + k2) as int)) {
                                    Err(e) => Err(e),
                                    Ok((m3, k3)) =>
                                        match E::spec_decode(bits.skip((k0 + k1 + k2 + k3) as int)) {
                                            Err(e) => Err(e),
                                            Ok((m4, k4)) =>
                                                match F::spec_decode(bits.skip((k0 + k1 + k2 + k3 + k4) as int)) {
                                                    Err(e) => Err(e),
                                                    Ok((m5, k5)) =>
                                                        match G::spec_decode(bits.skip((k0 + k1 + k2 + k3 + k4 + k5) as int)) {
                                                            Err(e) => Err(e),
                                                            Ok((m6, k6)) => Ok(((m0, m1, m2, m3, m4, m5, m6), k0 + k1 + k2 + k3 + k4 + k5 + k6)),
                                                        },
                                                },
                                        },
                                },
                        },
                },
        }
    }

    fn decode(r: &mut BitReader) -> (res: Result<Self, CodecError>) {
        let ghost s0 = r.remaining();
        let v0 = match A::decode(r) {
            Ok(v) => v,
            Err(e) => {
                return Err(e);
            },
        };
        let ghost k0 = A::spec_decode(s0)->Ok_0.1;
        let ghost s1 = r.remaining();
        let v1 = match B::decode(r) {
            Ok(v) => v,
            Err(e) => {
                proof {
                    lemma_consumed_skip(s0, s0.len() - s1.len());
                    assert(s1 =~= s0.skip(s0.len() - s1.len()));
                    lemma_consumed_trans(s0, s1, r.remaining());
                }
                return Err(e);
            },
        };
        let ghost k1 = B::spec_decode(s1)->Ok_0.1;
        let ghost s2 = r.remaining();
        proof {
            assert(s2 =~= s0.skip((k0 + k1) as int));
        }
        let v2 = match C::decode(r) {
            Ok(v) => v,
            Err(e) => {
                proof {
                    lemma_consumed_skip(s0, s0.len() - s2.len());
                    assert(s2 =~= s0.skip(s0.len() - s2.len()));
                    lemma_consumed_trans(s0, s2, r.remaining());
                }
                return Err(e);
            },
        };
        let ghost k2 = C::spec_decode(s2)->Ok_0.1;
        let ghost s3 = r.remaining();
        proof {
            assert(s3 =~= s0.skip((k0 + k1 + k2) as int));
        }
        let v3 = match D::decode(r) {
            Ok(v) => v,
            Err(e) => {
                proof {
                    lemma_consumed_skip(s0, s0.len() - s3.len());
                    assert(s3 =~= s0.skip(s0.len() - s3.len()));
                    lemma_consumed_trans(s0, s3, r.remaining());
                }
                return Err(e);
            },
        };
        let ghost k3 = D::spec_decode(s3)->Ok_0.1;
        let ghost s4 = r.remaining();
        proof {
            assert(s4 =~= s0.skip((k0 + k1 + k2 + k3) as int));
        }
        let v4 = match E::decode(r) {
            Ok(v) => v,
            Err(e) => {
                proof {
                    lemma_consumed_skip(s0, s0.len() - s4.len());
                    assert(s4 =~= s0.skip(s0.len() - s4.len()));
                    lemma_consumed_trans(s0, s4, r.remaining());
                }
                return Err(e);
            },
        };
        let ghost k4 = E::spec_decode(s4)->Ok_0.1;
        let ghost s5 = r.remaining();
        proof {
            assert(s5 =~= s0.skip((k0 + k1 + k2 + k3 + k4) as int));
        }
        let v5 = match F::decode(r) {
            Ok(v) => v,
            Err(e) => {
                proof {
                    lemma_consumed_skip(s0, s0.len() - s5.len());
                    assert(s5 =~= s0.skip(s0.len() - s5.len()));
                    lemma_consumed_trans(s0, s5, r.remaining());
                }
                return Err(e);
            },
        };
        let ghost k5 = F::spec_decode(s5)->Ok_0.1;
        let ghost s6 = r.remaining();
        proof {
            assert(s6 =~= s0.skip((k0 + k1 + k2 + k3 + k4 + k5) as int));
        }
        let v6 = match G::decode(r) {
            Ok(v) => v,
            Err(e) => {
                proof {
                    lemma_consumed_skip(s0, s0.len() - s6.len());
                    assert(s6 =~= s0.skip(s0.len() - s6.len()));
                    lemma_consumed_trans(s0, s6, r.remaining());
                }
                return Err(e);
            },
        };
        let ghost k6 = G::spec_decode(s6)->Ok_0.1;
        let ghost s7 = r.remaining();
        proof {
            assert(s7 =~= s0.skip((k0 + k1 + k2 + k3 + k4 + k5 + k6) as int));
        }
        Ok((v0, v1, v2, v3, v4, v5, v6))
    }
}

impl<A: RoundTrip, B: RoundTrip, C: RoundTrip, D: RoundTrip, E: RoundTrip, F: RoundTrip, G: RoundTrip> RoundTrip for (A, B, C, D, E, F, G) {
    open spec fn spec_round_trips(m: (A::Model, B::Model, C::Model, D::Model, E::Model, F::Model, G::Model)) -> bool {
        &&& A::spec_round_trips(m.0)
        &&& B::spec_round_trips(m.1)
        &&& C::spec_round_trips(m.2)
        &&& D::spec_round_trips(m.3)
        &&& E::spec_round_trips(m.4)
        &&& F::spec_round_trips(m.5)
        &&& G::spec_round_trips(m.6)
    }

    proof fn lemma_round_trip(x: &Self, rest: Seq<bool>) {
        let (x0, x1, x2, x3, x4, x5, x6) = x;
        let e0 = A::spec_encode(x0.model())->Ok_0;
        let e1 = B::spec_encode(x1.model())->Ok_0;
        let e2 = C::spec_encode(x2.model())->Ok_0;
        let e3 = D::spec_encode(x3.model())->Ok_0;
        let e4 = E::spec_encode(x4.model())->Ok_0;
        let e5 = F::spec_encode(x5.model())->Ok_0;
        let e6 = G::spec_encode(x6.model())->Ok_0;
        let t7 = rest;
        let t6 = e6 + t7;
        let t5 = e5 + t6;
        let t4 = e4 + t5;
        let t3 = e3 + t4;
        let t2 = e2 + t3;
        let t1 = e1 + t2;
        let t0 = e0 + t1;
        A::lemma_round_trip(x0, t1);
        B::lemma_round_trip(x1, t2);
        C::lemma_round_trip(x2, t3);
        D::lemma_round_trip(x3, t4);
        E::lemma_round_trip(x4, t5);
        F::lemma_round_trip(x5, t6);
        G::lemma_round_trip(x6, t7);
        assert(e0 + t1 =~= t0);
        assert((e0 + e1) + t2 =~= e0 + t1);
        assert(((e0 + e1) + e2) + t3 =~= (e0 + e1) + t2);
        assert((((e0 + e1) + e2) + e3) + t4 =~= ((e0 + e1) + e2) + t3);
        assert(((((e0 + e1) + e2) + e3) + e4) + t5 =~= (((e0 + e1) + e2) + e3) + t4);
        assert((((((e0 + e1) + e2) + e3) + e4) + e5) + t6 =~= ((((e0 + e1) + e2) + e3) + e4) + t5);
        assert(((((((e0 + e1) + e2) + e3) + e4) + e5) + e6) + t7 =~= (((((e0 + e1) + e2) + e3) + e4) + e5) + t6);
        assert(t0.skip(e0.len() as int) =~= t1);
        lemma_skip_skip(t0, (e0.len()) as int, e1.len() as int);
        assert(t1.skip(e1.len() as int) =~= t2);
        lemma_skip_skip(t0, (e0.len() + e1.len()) as int, e2.len() as int);
        assert(t2.skip(e2.len() as int) =~= t3);
        lemma_skip_skip(t0, (e0.len() + e1.len() + e2.len()) as int, e3.len() as int);
        assert(t3.skip(e3.len() as int) =~= t4);
        lemma_skip_skip(t0, (e0.len() + e1.len() + e2.len() + e3.len()) as int, e4.len() as int);
        assert(t4.skip(e4.len() as int) =~= t5);
        lemma_skip_skip(t0, (e0.len() + e1.len() + e2.len() + e3.len() + e4.len()) as int, e5.len() as int);
        assert(t5.skip(e5.len() as int) =~= t6);
    }
}

impl<A: Modeled, B: Modeled, C: Modeled, D: Modeled, E: Modeled, F: Modeled, G: Modeled, H: Modeled> Modeled for (A, B, C, D, E, F, G, H) {
    type Model = (A::Model, B::Model, C::Model, D::Model, E::Model, F::Model, G::Model, H::Model);

    open spec fn model(&self) -> (A::Model, B::Model, C::Model, D::Model, E::Model, F::Model, G::Model, H::Model) {
        (self.0.model(), self.1.model(), self.2.model(), self.3.model(), self.4.model(), self.5.model(), self.6.model(), self.7.model())
    }
}

impl<A: BitEncode, B: BitEncode, C: BitEncode, D: BitEncode, E: BitEncode, F: BitEncode, G: BitEncode, H: BitEncode> BitEncode for (A, B, C, D, E, F, G, H) {
    open spec fn spec_encode(m: (A::Model, B::Model, C::Model, D::Model, E::Model, F::Model, G::Model, H::Model)) -> Result<Seq<bool>, CodecError> {
        then_enc(then_enc(then_enc(then_enc(then_enc(then_enc(then_enc(A::spec_encode(m.0), B::spec_encode(m.1)), C::spec_encode(m.2)), D::spec_encode(m.3)), E::spec_encode(m.4)), F::spec_encode(m.5)), G::spec_encode(m.6)), H::spec_encode(m.7))
    }

    #[verifier::rlimit(40)]
    fn encode(&self, w: &mut BitWriter) -> (res: Result<(), CodecError>) {
        let ghost start = w.bits();
        let (x0, x1, x2, x3, x4, x5, x6, x7) = self;
        match x0.encode(w) {
            Ok(()) => {},
            Err(e) => {
                return Err(e);
            },
        }
        let ghost b1 = w.bits();
        let r1 = x1.encode(w);
        proof {
            if let (Ok(p), Ok(q)) = (A::spec_encode(x0.model()), B::spec_encode(x1.model())) {
                assert((start + p) + q =~= start + (p + q));
            }
        }
        match r1 {
            Ok(()) => {},
            Err(e) => {
                proof {
                    assert(start.is_prefix_of(b1)) by {
                        assert(start =~= b1.subrange(0, start.len() as int));
                    }
                    lemma_prefix_trans(start, b1, w.bits());
                }
                return Err(e);
            },
        }
        let ghost b2 = w.bits();
        let r2 = x2.encode(w);
        proof {
            if let (Ok(p), Ok(q)) = (then_enc(A::spec_encode(x0.model()), B::spec_encode(x1.model())), C::spec_encode(x2.model())) {
                assert((start + p) + q =~= start + (p + q));
            }
        }
        match r2 {
            Ok(()) => {},
            Err(e) => {
                proof {
                    assert(start.is_prefix_of(b2)) by {
                        assert(start =~= b2.subrange(0, start.len() as int));
                    }
                    lemma_prefix_trans(start, b2, w.bits());
                }
                return Err(e);
            },
        }
        let ghost b3 = w.bits();
        let r3 = x3.encode(w);
        proof {
            if let (Ok(p), Ok(q)) = (then_enc(then_enc(A::spec_encode(x0.model()), B::spec_encode(x1.model())), C::spec_encode(x2.model())), D::spec_encode(x3.model())) {
                assert((start + p) + q =~= start + (p + q));
            }
        }
        match r3 {
            Ok(()) => {},
            Err(e) => {
                proof {
                    assert(start.is_prefix_of(b3)) by {
                        assert(start =~= b3.subrange(0, start.len() as int));
                    }
                    lemma_prefix_trans(start, b3, w.bits());
                }
                return Err(e);
            },
        }
        let ghost b4 = w.bits();
        let r4 = x4.encode(w);
        proof {
            if let (Ok(p), Ok(q)) = (then_enc(then_enc(then_enc(A::spec_encode(x0.model()), B::spec_encode(x1.model())), C::spec_encode(x2.model())), D::spec_encode(x3.model())), E::spec_encode(x4.model())) {
                assert((start + p) + q =~= start + (p + q));
            }
        }
        match r4 {
            Ok(()) => {},
            Err(e) => {
                proof {
                    assert(start.is_prefix_of(b4)) by {
                        assert(start =~= b4.subrange(0, start.len() as int));
                    }
                    lemma_prefix_trans(start, b4, w.bits());
                }
                return Err(e);
            },
        }
        let ghost b5 = w.bits();
        let r5 = x5.encode(w);
        proof {
            if let (Ok(p), Ok(q)) = (then_enc(then_enc(then_enc(then_enc(A::spec_encode(x0.model()), B::spec_encode(x1.model())), C::spec_encode(x2.model())), D::spec_encode(x3.model())), E::spec_encode(x4.model())), F::spec_encode(x5.model())) {
                assert((start + p) + q =~= start + (p + q));
            }
        }
        match r5 {
            Ok(()) => {},
            Err(e) => {
                proof {
                    assert(start.is_prefix_of(b5)) by {
                        assert(start =~= b5.subrange(0, start.len() as int));
                    }
                    lemma_prefix_trans(start, b5, w.bits());
                }
                return Err(e);
            },
        }
        let ghost b6 = w.bits();
        let r6 = x6.encode(w);
        proof {
            if let (Ok(p), Ok(q)) = (then_enc(then_enc(then_enc(then_enc(then_enc(A::spec_encode(x0.model()), B::spec_encode(x1.model())), C::spec_encode(x2.model())), D::spec_encode(x3.model())), E::spec_encode(x4.model())), F::spec_encode(x5.model())), G::spec_encode(x6.model())) {
                assert((start + p) + q =~= start + (p + q));
            }
        }
        match r6 {
            Ok(()) => {},
            Err(e) => {
                proof {
                    assert(start.is_prefix_of(b6)) by {
                        assert(start =~= b6.subrange(0, start.len() as int));
                    }
                    lemma_prefix_trans(start, b6, w.bits());
                }
                return Err(e);
            },
        }
        let ghost b7 = w.bits();
        let r7 = x7.encode(w);
        proof {
            if let (Ok(p), Ok(q)) = (then_enc(then_enc(then_enc(then_enc(then_enc(then_enc(A::spec_encode(x0.model()), B::spec_encode(x1.model())), C::spec_encode(x2.model())), D::spec_encode(x3.model())), E::spec_encode(x4.model())), F::spec_encode(x5.model())), G::spec_encode(x6.model())), H::spec_encode(x7.model())) {
                assert((start + p) + q =~= start + (p + q));
            }
        }
        match r7 {
            Ok(()) => {},
            Err(e) => {
                proof {
                    assert(start.is_prefix_of(b7)) by {
                        assert(start =~= b7.subrange(0, start.len() as int));
                    }
                    lemma_prefix_trans(start, b7, w.bits());
                }
                return Err(e);
            },
        }
        Ok(())
    }
}

impl<A: BitDecode, B: BitDecode, C: BitDecode, D: BitDecode, E: BitDecode, F: BitDecode, G: BitDecode, H: BitDecode> BitDecode for (A, B, C, D, E, F, G, H) {
    open spec fn spec_decode(bits: Seq<bool>) -> Result<((A::Model, B::Model, C::Model, D::Model, E::Model, F::Model, G::Model, H::Model), nat), CodecError> {
        match A::spec_decode(bits) {
            Err(e) => Err(e),
            Ok((m0, k0)) =>
                match B::spec_decode(bits.skip((k0) as int)) {
                    Err(e) => Err(e),
                    Ok((m1, k1)) =>
                        match C::spec_decode(bits.skip((k0 + k1) as int)) {
                            Err(e) => Err(e),
                            Ok((m2, k2)) =>
                                match D::spec_decode(bits.skip((k0 + k1 + k2) as int)) {
                                    Err(e) => Err(e),
                                    Ok((m3, k3)) =>
                                        match E::spec_decode(bits.skip((k0 + k1 + k2 + k3) as int)) {
                                            Err(e) => Err(e),
                                            Ok((m4, k4)) =>
                                                match F::spec_decode(bits.skip((k0 + k1 + k2 + k3 + k4) as int)) {
                                                    Err(e) => Err(e),
                                                    Ok((m5, k5)) =>
                                                        match G::spec_decode(bits.skip((k0 + k1 + k2 + k3 + k4 + k5) as int)) {
                                                            Err(e) => Err(e),
                                                            Ok((m6, k6)) =>
                                                                match H::spec_decode(bits.skip((k0 + k1 + k2 + k3 + k4 + k5 + k6) as int)) {
                                                                    Err(e) => Err(e),
                                                                    Ok((m7, k7)) => Ok(((m0, m1, m2, m3, m4, m5, m6, m7), k0 + k1 + k2 + k3 + k4 + k5 + k6 + k7)),
                                                                },
                                                        },
                                                },
                                        },
                                },
                        },
                },
        }
    }

    #[verifier::rlimit(40)]
    fn decode(r: &mut BitReader) -> (res: Result<Self, CodecError>) {
        let ghost s0 = r.remaining();
        let v0 = match A::decode(r) {
            Ok(v) => v,
            Err(e) => {
                return Err(e);
            },
        };
        let ghost k0 = A::spec_decode(s0)->Ok_0.1;
        let ghost s1 = r.remaining();
        let v1 = match B::decode(r) {
            Ok(v) => v,
            Err(e) => {
                proof {
                    lemma_consumed_skip(s0, s0.len() - s1.len());
                    assert(s1 =~= s0.skip(s0.len() - s1.len()));
                    lemma_consumed_trans(s0, s1, r.remaining());
                }
                return Err(e);
            },
        };
        let ghost k1 = B::spec_decode(s1)->Ok_0.1;
        let ghost s2 = r.remaining();
        proof {
            assert(s2 =~= s0.skip((k0 + k1) as int));
        }
        let v2 = match C::decode(r) {
            Ok(v) => v,
            Err(e) => {
                proof {
                    lemma_consumed_skip(s0, s0.len() - s2.len());
                    assert(s2 =~= s0.skip(s0.len() - s2.len()));
                    lemma_consumed_trans(s0, s2, r.remaining());
                }
                return Err(e);
            },
        };
        let ghost k2 = C::spec_decode(s2)->Ok_0.1;
        let ghost s3 = r.remaining();
        proof {
            assert(s3 =~= s0.skip((k0 + k1 + k2) as int));
        }
        let v3 = match D::decode(r) {
            Ok(v) => v,
            Err(e) => {
                proof {
                    lemma_consumed_skip(s0, s0.len() - s3.len());
                    assert(s3 =~= s0.skip(s0.len() - s3.len()));
                    lemma_consumed_trans(s0, s3, r.remaining());
                }
                return Err(e);
            },
        };
        let ghost k3 = D::spec_decode(s3)->Ok_0.1;
        let ghost s4 = r.remaining();
        proof {
            assert(s4 =~= s0.skip((k0 + k1 + k2 + k3) as int));
        }
        let v4 = match E::decode(r) {
            Ok(v) => v,
            Err(e) => {
                proof {
                    lemma_consumed_skip(s0, s0.len() - s4.len());
                    assert(s4 =~= s0.skip(s0.len() - s4.len()));
                    lemma_consumed_trans(s0, s4, r.remaining());
                }
                return Err(e);
            },
        };
        let ghost k4 = E::spec_decode(s4)->Ok_0.1;
        let ghost s5 = r.remaining();
        proof {
            assert(s5 =~= s0.skip((k0 + k1 + k2 + k3 + k4) as int));
        }
        let v5 = match F::decode(r) {
            Ok(v) => v,
            Err(e) => {
                proof {
                    lemma_consumed_skip(s0, s0.len() - s5.len());
                    assert(s5 =~= s0.skip(s0.len() - s5.len()));
                    lemma_consumed_trans(s0, s5, r.remaining());
                }
                return Err(e);
            },
        };
        let ghost k5 = F::spec_decode(s5)->Ok_0.1;
        let ghost s6 = r.remaining();
        proof {
            assert(s6 =~= s0.skip((k0 + k1 + k2 + k3 + k4 + k5) as int));
        }
        let v6 = match G::decode(r) {
            Ok(v) => v,
            Err(e) => {
                proof {
                    lemma_consumed_skip(s0, s0.len() - s6.len());
                    assert(s6 =~= s0.skip(s0.len() - s6.len()));
                    lemma_consumed_trans(s0, s6, r.remaining());
                }
                return Err(e);
            },
        };
        let ghost k6 = G::spec_decode(s6)->Ok_0.1;
        let ghost s7 = r.remaining();
        proof {
            assert(s7 =~= s0.skip((k0 + k1 + k2 + k3 + k4 + k5 + k6) as int));
        }
        let v7 = match H::decode(r) {
            Ok(v) => v,
            Err(e) => {
                proof {
                    lemma_consumed_skip(s0, s0.len() - s7.len());
                    assert(s7 =~= s0.skip(s0.len() - s7.len()));
                    lemma_consumed_trans(s0, s7, r.remaining());
                }
                return Err(e);
            },
        };
        let ghost k7 = H::spec_decode(s7)->Ok_0.1;
        let ghost s8 = r.remaining();
        proof {
            assert(s8 =~= s0.skip((k0 + k1 + k2 + k3 + k4 + k5 + k6 + k7) as int));
        }
        Ok((v0, v1, v2, v3, v4, v5, v6, v7))
    }
}

impl<A: RoundTrip, B: RoundTrip, C: RoundTrip, D: RoundTrip, E: RoundTrip, F: RoundTrip, G: RoundTrip, H: RoundTrip> RoundTrip for (A, B, C, D, E, F, G, H) {
    open spec fn spec_round_trips(m: (A::Model, B::Model, C::Model, D::Model, E::Model, F::Model, G::Model, H::Model)) -> bool {
        &&& A::spec_round_trips(m.0)
        &&& B::spec_round_trips(m.1)
        &&& C::spec_round_trips(m.2)
        &&& D::spec_round_trips(m.3)
        &&& E::spec_round_trips(m.4)
        &&& F::spec_round_trips(m.5)
        &&& G::spec_round_trips(m.6)
        &&& H::spec_round_trips(m.7)
    }

    #[verifier::rlimit(40)]
    proof fn lemma_round_trip(x: &Self, rest: Seq<bool>) {
        let (x0, x1, x2, x3, x4, x5, x6, x7) = x;
        let e0 = A::spec_encode(x0.model())->Ok_0;
        let e1 = B::spec_encode(x1.model())->Ok_0;
        let e2 = C::spec_encode(x2.model())->Ok_0;
        let e3 = D::spec_encode(x3.model())->Ok_0;
        let e4 = E::spec_encode(x4.model())->Ok_0;
        let e5 = F::spec_encode(x5.model())->Ok_0;
        let e6 = G::spec_encode(x6.model())->Ok_0;
        let e7 = H::spec_encode(x7.model())->Ok_0;
        let t8 = rest;
        let t7 = e7 + t8;
        let t6 = e6 + t7;
        let t5 = e5 + t6;
        let t4 = e4 + t5;
        let t3 = e3 + t4;
        let t2 = e2 + t3;
        let t1 = e1 + t2;
        let t0 = e0 + t1;
        A::lemma_round_trip(x0, t1);
        B::lemma_round_trip(x1, t2);
        C::lemma_round_trip(x2, t3);
        D::lemma_round_trip(x3, t4);
        E::lemma_round_trip(x4, t5);
        F::lemma_round_trip(x5, t6);
        G::lemma_round_trip(x6, t7);
        H::lemma_round_trip(x7, t8);
        assert(e0 + t1 =~= t0);
        assert((e0 + e1) + t2 =~= e0 + t1);
        assert(((e0 + e1) + e2) + t3 =~= (e0 + e1) + t2);
        assert((((e0 + e1) + e2) + e3) + t4 =~= ((e0 + e1) + e2) + t3);
        assert(((((e0 + e1) + e2) + e3) + e4) + t5 =~= (((e0 + e1) + e2) + e3) + t4);
        assert((((((e0 + e1) + e2) + e3) + e4) + e5) + t6 =~= ((((e0 + e1) + e2) + e3) + e4) + t5);
        assert(((((((e0 + e1) + e2) + e3) + e4) + e5) + e6) + t7 =~= (((((e0 + e1) + e2) + e3) + e4) + e5) + t6);
        assert((((((((e0 + e1) + e2) + e3) + e4) + e5) + e6) + e7) + t8 =~= ((((((e0 + e1) + e2) + e3) + e4) + e5) + e6) + t7);
        assert(t0.skip(e0.len() as int) =~= t1);
        lemma_skip_skip(t0, (e0.len()) as int, e1.len() as int);
        assert(t1.skip(e1.len() as int) =~= t2);
        lemma_skip_skip(t0, (e0.len() + e1.len()) as int, e2.len() as int);
        assert(t2.skip(e2.len() as int) =~= t3);
        lemma_skip_skip(t0, (e0.len() + e1.len() + e2.len()) as int, e3.len() as int);
        assert(t3.skip(e3.len() as int) =~= t4);
        lemma_skip_skip(t0, (e0.len() + e1.len() + e2.len() + e3.len()) as int, e4.len() as int);
        assert(t4.skip(e4.len() as int) =~= t5);
        lemma_skip_skip(t0, (e0.len() + e1.len() + e2.len() + e3.len() + e4.len()) as int, e5.len() as int);
        assert(t5.skip(e5.len() as int) =~= t6);
        lemma_skip_skip(t0, (e0.len() + e1.len() + e2.len() + e3.len() + e4.len() + e5.len()) as int, e6.len() as int);
        assert(t6.skip(e6.len() as int) =~= t7);
    }
}

impl<A: Modeled, B: Modeled, C: Modeled, D: Modeled, E: Modeled, F: Modeled, G: Modeled, H: Modeled, I: Modeled> Modeled for (A, B, C, D, E, F, G, H, I) {
    type Model = (A::Model, B::Model, C::Model, D::Model, E::Model, F::Model, G::Model, H::Model, I::Model);

    open spec fn model(&self) -> (A::Model, B::Model, C::Model, D::Model, E::Model, F::Model, G::Model, H::Model, I::Model) {
        (self.0.model(), self.1.model(), self.2.model(), self.3.model(), self.4.model(), self.5.model(), self.6.model(), self.7.model(), self.8.model())
    }
}

impl<A: BitEncode, B: BitEncode, C: BitEncode, D: BitEncode, E: BitEncode, F: BitEncode, G: BitEncode, H: BitEncode, I: BitEncode> BitEncode for (A, B, C, D, E, F, G, H, I) {
    open spec fn spec_encode(m: (A::Model, B::Model, C::Model, D::Model, E::Model, F::Model, G::Model, H::Model, I::Model)) -> Result<Seq<bool>, CodecError> {
        then_enc(then_enc(then_enc(then_enc(then_enc(then_enc(then_enc(then_enc(A::spec_encode(m.0), B::spec_encode(m.1)), C::spec_encode(m.2)), D::spec_encode(m.3)), E::spec_encode(m.4)), F::spec_encode(m.5)), G::spec_encode(m.6)), H::spec_encode(m.7)), I::spec_encode(m.8))
    }

    #[verifier::rlimit(40)]
    fn encode(&self, w: &mut BitWriter) -> (res: Result<(), CodecError>) {
        let ghost start = w.bits();
        let (x0, x1, x2, x3, x4, x5, x6, x7, x8) = self;
        match x0.encode(w) {
            Ok(()) => {},
            Err(e) => {
                return Err(e);
            },
        }
        let ghost b1 = w.bits();
        let r1 = x1.encode(w);
        proof {
            if let (Ok(p), Ok(q)) = (A::spec_encode(x0.model()), B::spec_encode(x1.model())) {
                assert((start + p) + q =~= start + (p + q));
            }
        }
        match r1 {
            Ok(()) => {},
            Err(e) => {
                proof {
                    assert(start.is_prefix_of(b1)) by {
                        assert(start =~= b1.subrange(0, start.len() as int));
                    }
                    lemma_prefix_trans(start, b1, w.bits());
                }
                return Err(e);
            },
        }
        let ghost b2 = w.bits();
        let r2 = x2.encode(w);
        proof {
            if let (Ok(p), Ok(q)) = (then_enc(A::spec_encode(x0.model()), B::spec_encode(x1.model())), C::spec_encode(x2.model())) {
                assert((start + p) + q =~= start + (p + q));
            }
        }
        match r2 {
            Ok(()) => {},
            Err(e) => {
                proof {
                    assert(start.is_prefix_of(b2)) by {
                        assert(start =~= b2.subrange(0, start.len() as int));
                    }
                    lemma_prefix_trans(start, b2, w.bits());
                }
                return Err(e);
            },
        }
        let ghost b3 = w.bits();
        let r3 = x3.encode(w);
        proof {
            if let (Ok(p), Ok(q)) = (then_enc(then_enc(A::spec_encode(x0.model()), B::spec_encode(x1.model())), C::spec_encode(x2.model())), D::spec_encode(x3.model())) {
                assert((start + p) + q =~= start + (p + q));
            }
        }
        match r3 {
            Ok(()) => {},
            Err(e) => {
                proof {
                    assert(start.is_prefix_of(b3)) by {
                        assert(start =~= b3.subrange(0, start.len() as int));
                    }
                    lemma_prefix_trans(start, b3, w.bits());
                }
                return Err(e);
            },
        }
        let ghost b4 = w.bits();
        let r4 = x4.encode(w);
        proof {
            if let (Ok(p), Ok(q)) = (then_enc(then_enc(then_enc(A::spec_encode(x0.model()), B::spec_encode(x1.model())), C::spec_encode(x2.model())), D::spec_encode(x3.model())), E::spec_encode(x4.model())) {
                assert((start + p) + q =~= start + (p + q));
            }
        }
        match r4 {
            Ok(()) => {},
            Err(e) => {
                proof {
                    assert(start.is_prefix_of(b4)) by {
                        assert(start =~= b4.subrange(0, start.len() as int));
                    }
                    lemma_prefix_trans(start, b4, w.bits());
                }
                return Err(e);
            },
        }
        let ghost b5 = w.bits();
        let r5 = x5.encode(w);
        proof {
            if let (Ok(p), Ok(q)) = (then_enc(then_enc(then_enc(then_enc(A::spec_encode(x0.model()), B::spec_encode(x1.model())), C::spec_encode(x2.model())), D::spec_encode(x3.model())), E::spec_encode(x4.model())), F::spec_encode(x5.model())) {
                assert((start + p) + q =~= start + (p + q));
            }
        }
        match r5 {
            Ok(()) => {},
            Err(e) => {
                proof {
                    assert(start.is_prefix_of(b5)) by {
                        assert(start =~= b5.subrange(0, start.len() as int));
                    }
                    lemma_prefix_trans(start, b5, w.bits());
                }
                return Err(e);
            },
        }
        let ghost b6 = w.bits();
        let r6 = x6.encode(w);
        proof {
            if let (Ok(p), Ok(q)) = (then_enc(then_enc(then_enc(then_enc(then_enc(A::spec_encode(x0.model()), B::spec_encode(x1.model())), C::spec_encode(x2.model())), D::spec_encode(x3.model())), E::spec_encode(x4.model())), F::spec_encode(x5.model())), G::spec_encode(x6.model())) {
                assert((start + p) + q =~= start + (p + q));
            }
        }
        match r6 {
            Ok(()) => {},
            Err(e) => {
                proof {
                    assert(start.is_prefix_of(b6)) by {
                        assert(start =~= b6.subrange(0, start.len() as int));
                    }
                    lemma_prefix_trans(start, b6, w.bits());
                }
                return Err(e);
            },
        }
        let ghost b7 = w.bits();
        let r7 = x7.encode(w);
        proof {
            if let (Ok(p), Ok(q)) = (then_enc(then_enc(then_enc(then_enc(then_enc(then_enc(A::spec_encode(x0.model()), B::spec_encode(x1.model())), C::spec_encode(x2.model())), D::spec_encode(x3.model())), E::spec_encode(x4.model())), F::spec_encode(x5.model())), G::spec_encode(x6.model())), H::spec_encode(x7.model())) {
                assert((start + p) + q =~= start + (p + q));
            }
        }
        match r7 {
            Ok(()) => {},
            Err(e) => {
                proof {
                    assert(start.is_prefix_of(b7)) by {
                        assert(start =~= b7.subrange(0, start.len() as int));
                    }
                    lemma_prefix_trans(start, b7, w.bits());
                }
                return Err(e);
            },
        }
        let ghost b8 = w.bits();
        let r8 = x8.encode(w);
        proof {
            if let (Ok(p), Ok(q)) = (then_enc(then_enc(then_enc(then_enc(then_enc(then_enc(then_enc(A::spec_encode(x0.model()), B::spec_encode(x1.model())), C::spec_encode(x2.model())), D::spec_encode(x3.model())), E::spec_encode(x4.model())), F::spec_encode(x5.model())), G::spec_encode(x6.model())), H::spec_encode(x7.model())), I::spec_encode(x8.model())) {
                assert((start + p) + q =~= start + (p + q));
            }
        }
        match r8 {
            Ok(()) => {},
            Err(e) => {
                proof {
                    assert(start.is_prefix_of(b8)) by {
                        assert(start =~= b8.subrange(0, start.len() as int));
                    }
                    lemma_prefix_trans(start, b8, w.bits());
                }
                return Err(e);
            },
        }
        Ok(())
    }
}

impl<A: BitDecode, B: BitDecode, C: BitDecode, D: BitDecode, E: BitDecode, F: BitDecode, G: BitDecode, H: BitDecode, I: BitDecode> BitDecode for (A, B, C, D, E, F, G, H, I) {
    open spec fn spec_decode(bits: Seq<bool>) -> Result<((A::Model, B::Model, C::Model, D::Model, E::Model, F::Model, G::Model, H::Model, I::Model), nat), CodecError> {
        match A::spec_decode(bits) {
            Err(e) => Err(e),
            Ok((m0, k0)) =>
                match B::spec_decode(bits.skip((k0) as int)) {
                    Err(e) => Err(e),
                    Ok((m1, k1)) =>
                        match C::spec_decode(bits.skip((k0 + k1) as int)) {
                            Err(e) => Err(e),
                            Ok((m2, k2)) =>
                                match D::spec_decode(bits.skip((k0 + k1 + k2) as int)) {
                                    Err(e) => Err(e),
                                    Ok((m3, k3)) =>
                                        match E::spec_decode(bits.skip((k0 + k1 + k2 + k3) as int)) {
                                            Err(e) => Err(e),
                                            Ok((m4, k4)) =>
                                                match F::spec_decode(bits.skip((k0 + k1 + k2 + k3 + k4) as int)) {
                                                    Err(e) => Err(e),
                                                    Ok((m5, k5)) =>
                                                        match G::spec_decode(bits.skip((k0 + k1 + k2 + k3 + k4 + k5) as int)) {
                                                            Err(e) => Err(e),
                                                            Ok((m6, k6)) =>
                                                                match H::spec_decode(bits.skip((k0 + k1 + k2 + k3 + k4 + k5 + k6) as int)) {
                                                                    Err(e) => Err(e),
                                                                    Ok((m7, k7)) =>
                                                                        match I::spec_decode(bits.skip((k0 + k1 + k2 + k3 + k4 + k5 + k6 + k7) as int)) {
                                                                            Err(e) => Err(e),
                                                                            Ok((m8, k8)) => Ok(((m0, m1, m2, m3, m4, m5, m6, m7, m8), k0 + k1 + k2 + k3 + k4 + k5 + k6 + k7 + k8)),
                                                                        },
                                                                },
                                                        },
                                                },
                                        },
                                },
                        },
                },
        }
    }

    #[verifier::rlimit(40)]
    fn decode(r: &mut BitReader) -> (res: Result<Self, CodecError>) {
        let ghost s0 = r.remaining();
        let v0 = match A::decode(r) {
            Ok(v) => v,
            Err(e) => {
                return Err(e);
            },
        };
        let ghost k0 = A::spec_decode(s0)->Ok_0.1;
        let ghost s1 = r.remaining();
        let v1 = match B::decode(r) {
            Ok(v) => v,
            Err(e) => {
                proof {
                    lemma_consumed_skip(s0, s0.len() - s1.len());
                    assert(s1 =~= s0.skip(s0.len() - s1.len()));
                    lemma_consumed_trans(s0, s1, r.remaining());
                }
                return Err(e);
            },
        };
        let ghost k1 = B::spec_decode(s1)->Ok_0.1;
        let ghost s2 = r.remaining();
        proof {
            assert(s2 =~= s0.skip((k0 + k1) as int));
        }
        let v2 = match C::decode(r) {
            Ok(v) => v,
            Err(e) => {
                proof {
                    lemma_consumed_skip(s0, s0.len() - s2.len());
                    assert(s2 =~= s0.skip(s0.len() - s2.len()));
                    lemma_consumed_trans(s0, s2, r.remaining());
                }
                return Err(e);
            },
        };
        let ghost k2 = C::spec_decode(s2)->Ok_0.1;
        let ghost s3 = r.remaining();
        proof {
            assert(s3 =~= s0.skip((k0 + k1 + k2) as int));
        }
        let v3 = match D::decode(r) {
            Ok(v) => v,
            Err(e) => {
                proof {
                    lemma_consumed_skip(s0, s0.len() - s3.len());
                    assert(s3 =~= s0.skip(s0.len() - s3.len()));
                    lemma_consumed_trans(s0, s3, r.remaining());
                }
                return Err(e);
            },
        };
        let ghost k3 = D::spec_decode(s3)->Ok_0.1;
        let ghost s4 = r.remaining();
        proof {
            assert(s4 =~= s0.skip((k0 + k1 + k2 + k3) as int));
        }
        let v4 = match E::decode(r) {
            Ok(v) => v,
            Err(e) => {
                proof {
                    lemma_consumed_skip(s0, s0.len() - s4.len());
                    assert(s4 =~= s0.skip(s0.len() - s4.len()));
                    lemma_consumed_trans(s0, s4, r.remaining());
                }
                return Err(e);
            },
        };
        let ghost k4 = E::spec_decode(s4)->Ok_0.1;
        let ghost s5 = r.remaining();
        proof {
            assert(s5 =~= s0.skip((k0 + k1 + k2 + k3 + k4) as int));
        }
        let v5 = match F::decode(r) {
            Ok(v) => v,
            Err(e) => {
                proof {
                    lemma_consumed_skip(s0, s0.len() - s5.len());
                    assert(s5 =~= s0.skip(s0.len() - s5.len()));
                    lemma_consumed_trans(s0, s5, r.remaining());
                }
                return Err(e);
            },
        };
        let ghost k5 = F::spec_decode(s5)->Ok_0.1;
        let ghost s6 = r.remaining();
        proof {
            assert(s6 =~= s0.skip((k0 + k1 + k2 + k3 + k4 + k5) as int));
        }
        let v6 = match G::decode(r) {
            Ok(v) => v,
            Err(e) => {
                proof {
                    lemma_consumed_skip(s0, s0.len() - s6.len());
                    assert(s6 =~= s0.skip(s0.len() - s6.len()));
                    lemma_consumed_trans(s0, s6, r.remaining());
                }
                return Err(e);
            },
        };
        let ghost k6 = G::spec_decode(s6)->Ok_0.1;
        let ghost s7 = r.remaining();
        proof {
            assert(s7 =~= s0.skip((k0 + k1 + k2 + k3 + k4 + k5 + k6) as int));
        }
        let v7 = match H::decode(r) {
            Ok(v) => v,
            Err(e) => {
                proof {
                    lemma_consumed_skip(s0, s0.len() - s7.len());
                    assert(s7 =~= s0.skip(s0.len() - s7.len()));
                    lemma_consumed_trans(s0, s7, r.remaining());
                }
                return Err(e);
            },
        };
        let ghost k7 = H::spec_decode(s7)->Ok_0.1;
        let ghost s8 = r.remaining();
        proof {
            assert(s8 =~= s0.skip((k0 + k1 + k2 + k3 + k4 + k5 + k6 + k7) as int));
        }
        let v8 = match I::decode(r) {
            Ok(v) => v,
            Err(e) => {
                proof {
                    lemma_consumed_skip(s0, s0.len() - s8.len());
                    assert(s8 =~= s0.skip(s0.len() - s8.len()));
                    lemma_consumed_trans(s0, s8, r.remaining());
                }
                return Err(e);
            },
        };
        let ghost k8 = I::spec_decode(s8)->Ok_0.1;
        let ghost s9 = r.remaining();
        proof {
            assert(s9 =~= s0.skip((k0 + k1 + k2 + k3 + k4 + k5 + k6 + k7 + k8) as int));
        }
        Ok((v0, v1, v2, v3, v4, v5, v6, v7, v8))
    }
}

impl<A: RoundTrip, B: RoundTrip, C: RoundTrip, D: RoundTrip, E: RoundTrip, F: RoundTrip, G: RoundTrip, H: RoundTrip, I: RoundTrip> RoundTrip for (A, B, C, D, E, F, G, H, I) {
    open spec fn spec_round_trips(m: (A::Model, B::Model, C::Model, D::Model, E::Model, F::Model, G::Model, H::Model, I::Model)) -> bool {
        &&& A::spec_round_trips(m.0)
        &&& B::spec_round_trips(m.1)
        &&& C::spec_round_trips(m.2)
        &&& D::spec_round_trips(m.3)
        &&& E::spec_round_trips(m.4)
        &&& F::spec_round_trips(m.5)
        &&& G::spec_round_trips(m.6)
        &&& H::spec_round_trips(m.7)
        &&& I::spec_round_trips(m.8)
    }

    #[verifier::rlimit(40)]
    proof fn lemma_round_trip(x: &Self, rest: Seq<bool>) {
        let (x0, x1, x2, x3, x4, x5, x6, x7, x8) = x;
        let e0 = A::spec_encode(x0.model())->Ok_0;
        let e1 = B::spec_encode(x1.model())->Ok_0;
        let e2 = C::spec_encode(x2.model())->Ok_0;
        let e3 = D::spec_encode(x3.model())->Ok_0;
        let e4 = E::spec_encode(x4.model())->Ok_0;
        let e5 = F::spec_encode(x5.model())->Ok_0;
        let e6 = G::spec_encode(x6.model())->Ok_0;
        let e7 = H::spec_encode(x7.model())->Ok_0;
        let e8 = I::spec_encode(x8.model())->Ok_0;
        let t9 = rest;
        let t8 = e8 + t9;
        let t7 = e7 + t8;
        let t6 = e6 + t7;
        let t5 = e5 + t6;
        let t4 = e4 + t5;
        let t3 = e3 + t4;
        let t2 = e2 + t3;
        let t1 = e1 + t2;
        let t0 = e0 + t1;
        A::lemma_round_trip(x0, t1);
        B::lemma_round_trip(x1, t2);
        C::lemma_round_trip(x2, t3);
        D::lemma_round_trip(x3, t4);
        E::lemma_round_trip(x4, t5);
        F::lemma_round_trip(x5, t6);
        G::lemma_round_trip(x6, t7);
        H::lemma_round_trip(x7, t8);
        I::lemma_round_trip(x8, t9);
        assert(e0 + t1 =~= t0);
        assert((e0 + e1) + t2 =~= e0 + t1);
        assert(((e0 + e1) + e2) + t3 =~= (e0 + e1) + t2);
        assert((((e0 + e1) + e2) + e3) + t4 =~= ((e0 + e1) + e2) + t3);
        assert(((((e0 + e1) + e2) + e3) + e4) + t5 =~= (((e0 + e1) + e2) + e3) + t4);
        assert((((((e0 + e1) + e2) + e3) + e4) + e5) + t6 =~= ((((e0 + e1) + e2) + e3) + e4) + t5);
        assert(((((((e0 + e1) + e2) + e3) + e4) + e5) + e6) + t7 =~= (((((e0 + e1) + e2) + e3) + e4) + e5) + t6);
        assert((((((((e0 + e1) + e2) + e3) + e4) + e5) + e6) + e7) + t8 =~= ((((((e0 + e1) + e2) + e3) + e4) + e5) + e6) + t7);
        assert(((((((((e0 + e1) + e2) + e3) + e4) + e5) + e6) + e7) + e8) + t9 =~= (((((((e0 + e1) + e2) + e3) + e4) + e5) + e6) + e7) + t8);
        assert(t0.skip(e0.len() as int) =~= t1);
        lemma_skip_skip(t0, (e0.len()) as int, e1.len() as int);
        assert(t1.skip(e1.len() as int) =~= t2);
        lemma_skip_skip(t0, (e0.len() + e1.len()) as int, e2.len() as int);
        assert(t2.skip(e2.len() as int) =~= t3);
        lemma_skip_skip(t0, (e0.len() + e1.len() + e2.len()) as int, e3.len() as int);
        assert(t3.skip(e3.len() as int) =~= t4);
        lemma_skip_skip(t0, (e0.len() + e1.len() + e2.len() + e3.len()) as int, e4.len() as int);
        assert(t4.skip(e4.len() as int) =~= t5);
        lemma_skip_skip(t0, (e0.len() + e1.len() + e2.len() + e3.len() + e4.len()) as int, e5.len() as int);
        assert(t5.skip(e5.len() as int) =~= t6);
        lemma_skip_skip(t0, (e0.len() + e1.len() + e2.len() + e3.len() + e4.len() + e5.len()) as int, e6.len() as int);
        assert(t6.skip(e6.len() as int) =~= t7);
        lemma_skip_skip(t0, (e0.len() + e1.len() + e2.len() + e3.len() + e4.len() + e5.len() + e6.len()) as int, e7.len() as int);
        assert(t7.skip(e7.len() as int) =~= t8);
    }
}

impl<A: Modeled, B: Modeled, C: Modeled, D: Modeled, E: Modeled, F: Modeled, G: Modeled, H: Modeled, I: Modeled, J: Modeled> Modeled for (A, B, C, D, E, F, G, H, I, J) {
    type Model = (A::Model, B::Model, C::Model, D::Model, E::Model, F::Model, G::Model, H::Model, I::Model, J::Model);

    open spec fn model(&self) -> (A::Model, B::Model, C::Model, D::Model, E::Model, F::Model, G::Model, H::Model, I::Model, J::Model) {
        (self.0.model(), self.1.model(), self.2.model(), self.3.model(), self.4.model(), self.5.model(), self.6.model(), self.7.model(), self.8.model(), self.9.model())
    }
}

impl<A: BitEncode, B: BitEncode, C: BitEncode, D: BitEncode, E: BitEncode, F: BitEncode, G: BitEncode, H: BitEncode, I: BitEncode, J: BitEncode> BitEncode for (A, B, C, D, E, F, G, H, I, J) {
    open spec fn spec_encode(m: (A::Model, B::Model, C::Model, D::Model, E::Model, F::Model, G::Model, H::Model, I::Model, J::Model)) -> Result<Seq<bool>, CodecError> {
        then_enc(then_enc(then_enc(then_enc(then_enc(then_enc(then_enc(then_enc(then_enc(A::spec_encode(m.0), B::spec_encode(m.1)), C::spec_encode(m.2)), D::spec_encode(m.3)), E::spec_encode(m.4)), F::spec_encode(m.5)), G::spec_encode(m.6)), H::spec_encode(m.7)), I::spec_encode(m.8)), J::spec_encode(m.9))
    }

    #[verifier::rlimit(40)]
    fn encode(&self, w: &mut BitWriter) -> (res: Result<(), CodecError>) {
        let ghost start = w.bits();
        let (x0, x1, x2, x3, x4, x5, x6, x7, x8, x9) = self;
        match x0.encode(w) {
            Ok(()) => {},
            Err(e) => {
                return Err(e);
            },
        }
        let ghost b1 = w.bits();
        let r1 = x1.encode(w);
        proof {
            if let (Ok(p), Ok(q)) = (A::spec_encode(x0.model()), B::spec_encode(x1.model())) {
                assert((start + p) + q =~= start + (p + q));
            }
        }
        match r1 {
            Ok(()) => {},
            Err(e) => {
                proof {
                    assert(start.is_prefix_of(b1)) by {
                        assert(start =~= b1.subrange(0, start.len() as int));
                    }
                    lemma_prefix_trans(start, b1, w.bits());
                }
                return Err(e);
            },
        }
        let ghost b2 = w.bits();
        let r2 = x2.encode(w);
        proof {
            if let (Ok(p), Ok(q)) = (then_enc(A::spec_encode(x0.model()), B::spec_encode(x1.model())), C::spec_encode(x2.model())) {
                assert((start + p) + q =~= start + (p + q));
            }
        }
        match r2 {
            Ok(()) => {},
            Err(e) => {
                proof {
                    assert(start.is_prefix_of(b2)) by {
                        assert(start =~= b2.subrange(0, start.len() as int));
                    }
                    lemma_prefix_trans(start, b2, w.bits());
                }
                return Err(e);
            },
        }
        let ghost b3 = w.bits();
        let r3 = x3.encode(w);
        proof {
            if let (Ok(p), Ok(q)) = (then_enc(then_enc(A::spec_encode(x0.model()), B::spec_encode(x1.model())), C::spec_encode(x2.model())), D::spec_encode(x3.model())) {
                assert((start + p) + q =~= start + (p + q));
            }
        }
        match r3 {
            Ok(()) => {},
            Err(e) => {
                proof {
                    assert(start.is_prefix_of(b3)) by {
                        assert(start =~= b3.subrange(0, start.len() as int));
                    }
                    lemma_prefix_trans(start, b3, w.bits());
                }
                return Err(e);
            },
        }
        let ghost b4 = w.bits();
        let r4 = x4.encode(w);
        proof {
            if let (Ok(p), Ok(q)) = (then_enc(then_enc(then_enc(A::spec_encode(x0.model()), B::spec_encode(x1.model())), C::spec_encode(x2.model())), D::spec_encode(x3.model())), E::spec_encode(x4.model())) {
                assert((start + p) + q =~= start + (p + q));
            }
        }
        match r4 {
            Ok(()) => {},
            Err(e) => {
                proof {
                    assert(start.is_prefix_of(b4)) by {
                        assert(start =~= b4.subrange(0, start.len() as int));
                    }
                    lemma_prefix_trans(start, b4, w.bits());
                }
                return Err(e);
            },
        }
        let ghost b5 = w.bits();
        let r5 = x5.encode(w);
        proof {
            if let (Ok(p), Ok(q)) = (then_enc(then_enc(then_enc(then_enc(A::spec_encode(x0.model()), B::spec_encode(x1.model())), C::spec_encode(x2.model())), D::spec_encode(x3.model())), E::spec_encode(x4.model())), F::spec_encode(x5.model())) {
                assert((start + p) + q =~= start + (p + q));
            }
        }
        match r5 {
            Ok(()) => {},
            Err(e) => {
                proof {
                    assert(start.is_prefix_of(b5)) by {
                        assert(start =~= b5.subrange(0, start.len() as int));
                    }
                    lemma_prefix_trans(start, b5, w.bits());
                }
                return Err(e);
            },
        }
        let ghost b6 = w.bits();
        let r6 = x6.encode(w);
        proof {
            if let (Ok(p), Ok(q)) = (then_enc(then_enc(then_enc(then_enc(then_enc(A::spec_encode(x0.model()), B::spec_encode(x1.model())), C::spec_encode(x2.model())), D::spec_encode(x3.model())), E::spec_encode(x4.model())), F::spec_encode(x5.model())), G::spec_encode(x6.model())) {
                assert((start + p) + q =~= start + (p + q));
            }
        }
        match r6 {
            Ok(()) => {},
            Err(e) => {
                proof {
                    assert(start.is_prefix_of(b6)) by {
                        assert(start =~= b6.subrange(0, start.len() as int));
                    }
                    lemma_prefix_trans(start, b6, w.bits());
                }
                return Err(e);
            },
        }
        let ghost b7 = w.bits();
        let r7 = x7.encode(w);
        proof {
            if let (Ok(p), Ok(q)) = (then_enc(then_enc(then_enc(then_enc(then_enc(then_enc(A::spec_encode(x0.model()), B::spec_encode(x1.model())), C::spec_encode(x2.model())), D::spec_encode(x3.model())), E::spec_encode(x4.model())), F::spec_encode(x5.model())), G::spec_encode(x6.model())), H::spec_encode(x7.model())) {
                assert((start + p) + q =~= start + (p + q));
            }
        }
        match r7 {
            Ok(()) => {},
            Err(e) => {
                proof {
                    assert(start.is_prefix_of(b7)) by {
                        assert(start =~= b7.subrange(0, start.len() as int));
                    }
                    lemma_prefix_trans(start, b7, w.bits());
                }
                return Err(e);
            },
        }
        let ghost b8 = w.bits();
        let r8 = x8.encode(w);
        proof {
            if let (Ok(p), Ok(q)) = (then_enc(then_enc(then_enc(then_enc(then_enc(then_enc(then_enc(A::spec_encode(x0.model()), B::spec_encode(x1.model())), C::spec_encode(x2.model())), D::spec_encode(x3.model())), E::spec_encode(x4.model())), F::spec_encode(x5.model())), G::spec_encode(x6.model())), H::spec_encode(x7.model())), I::spec_encode(x8.model())) {
                assert((start + p) + q =~= start + (p + q));
            }
        }
        match r8 {
            Ok(()) => {},
            Err(e) => {
                proof {
                    assert(start.is_prefix_of(b8)) by {
                        assert(start =~= b8.subrange(0, start.len() as int));
                    }
                    lemma_prefix_trans(start, b8, w.bits());
                }
                return Err(e);
            },
        }
        let ghost b9 = w.bits();
        let r9 = x9.encode(w);
        proof {
            if let (Ok(p), Ok(q)) = (then_enc(then_enc(then_enc(then_enc(then_enc(then_enc(then_enc(then_enc(A::spec_encode(x0.model()), B::spec_encode(x1.model())), C::spec_encode(x2.model())), D::spec_encode(x3.model())), E::spec_encode(x4.model())), F::spec_encode(x5.model())), G::spec_encode(x6.model())), H::spec_encode(x7.model())), I::spec_encode(x8.model())), J::spec_encode(x9.model())) {
                assert((start + p) + q =~= start + (p + q));
            }
        }
        match r9 {
            Ok(()) => {},
            Err(e) => {
                proof {
                    assert(start.is_prefix_of(b9)) by {
                        assert(start =~= b9.subrange(0, start.len() as int));
                    }
                    lemma_prefix_trans(start, b9, w.bits());
                }
                return Err(e);
            },
        }
        Ok(())
    }
}

impl<A: BitDecode, B: BitDecode, C: BitDecode, D: BitDecode, E: BitDecode, F: BitDecode, G: BitDecode, H: BitDecode, I: BitDecode, J: BitDecode> BitDecode for (A, B, C, D, E, F, G, H, I, J) {
    open spec fn spec_decode(bits: Seq<bool>) -> Result<((A::Model, B::Model, C::Model, D::Model, E::Model, F::Model, G::Model, H::Model, I::Model, J::Model), nat), CodecError> {
        match A::spec_decode(bits) {
            Err(e) => Err(e),
            Ok((m0, k0)) =>
                match B::spec_decode(bits.skip((k0) as int)) {
                    Err(e) => Err(e),
                    Ok((m1, k1)) =>
                        match C::spec_decode(bits.skip((k0 + k1) as int)) {
                            Err(e) => Err(e),
                            Ok((m2, k2)) =>
                                match D::spec_decode(bits.skip((k0 + k1 + k2) as int)) {
                                    Err(e) => Err(e),
                                    Ok((m3, k3)) =>
                                        match E::spec_decode(bits.skip((k0 + k1 + k2 + k3) as int)) {
                                            Err(e) => Err(e),
                                            Ok((m4, k4)) =>
                                                match F::spec_decode(bits.skip((k0 + k1 + k2 + k3 + k4) as int)) {
                                                    Err(e) => Err(e),
                                                    Ok((m5, k5)) =>
                                                        match G::spec_decode(bits.skip((k0 + k1 + k2 + k3 + k4 + k5) as int)) {
                                                            Err(e) => Err(e),
                                                            Ok((m6, k6)) =>
                                                                match H::spec_decode(bits.skip((k0 + k1 + k2 + k3 + k4 + k5 + k6) as int)) {
                                                                    Err(e) => Err(e),
                                                                    Ok((m7, k7)) =>
                                                                        match I::spec_decode(bits.skip((k0 + k1 + k2 + k3 + k4 + k5 + k6 + k7) as int)) {
                                                                            Err(e) => Err(e),
                                                                            Ok((m8, k8)) =>
                                                                                match J::spec_decode(bits.skip((k0 + k1 + k2 + k3 + k4 + k5 + k6 + k7 + k8) as int)) {
                                                                                    Err(e) => Err(e),
                                                                                    Ok((m9, k9)) => Ok(((m0, m1, m2, m3, m4, m5, m6, m7, m8, m9), k0 + k1 + k2 + k3 + k4 + k5 + k6 + k7 + k8 + k9)),
                                                                                },
                                                                        },
                                                                },
                                                        },
                                                },
                                        },
                                },
                        },
                },
        }
    }

    #[verifier::rlimit(40)]
    fn decode(r: &mut BitReader) -> (res: Result<Self, CodecError>) {
        let ghost s0 = r.remaining();
        let v0 = match A::decode(r) {
            Ok(v) => v,
            Err(e) => {
                return Err(e);
            },
        };
        let ghost k0 = A::spec_decode(s0)->Ok_0.1;
        let ghost s1 = r.remaining();
        let v1 = match B::decode(r) {
            Ok(v) => v,
            Err(e) => {
                proof {
                    lemma_consumed_skip(s0, s0.len() - s1.len());
                    assert(s1 =~= s0.skip(s0.len() - s1.len()));
                    lemma_consumed_trans(s0, s1, r.remaining());
                }
                return Err(e);
            },
        };
        let ghost k1 = B::spec_decode(s1)->Ok_0.1;
        let ghost s2 = r.remaining();
        proof {
            assert(s2 =~= s0.skip((k0 + k1) as int));
        }
        let v2 = match C::decode(r) {
            Ok(v) => v,
            Err(e) => {
                proof {
                    lemma_consumed_skip(s0, s0.len() - s2.len());
                    assert(s2 =~= s0.skip(s0.len() - s2.len()));
                    lemma_consumed_trans(s0, s2, r.remaining());
                }
                return Err(e);
            },
        };
        let ghost k2 = C::spec_decode(s2)->Ok_0.1;
        let ghost s3 = r.remaining();
        proof {
            assert(s3 =~= s0.skip((k0 + k1 + k2) as int));
        }
        let v3 = match D::decode(r) {
            Ok(v) => v,
            Err(e) => {
                proof {
                    lemma_consumed_skip(s0, s0.len() - s3.len());
                    assert(s3 =~= s0.skip(s0.len() - s3.len()));
                    lemma_consumed_trans(s0, s3, r.remaining());
                }
                return Err(e);
            },
        };
        let ghost k3 = D::spec_decode(s3)->Ok_0.1;
        let ghost s4 = r.remaining();
        proof {
            assert(s4 =~= s0.skip((k0 + k1 + k2 + k3) as int));
        }
        let v4 = match E::decode(r) {
            Ok(v) => v,
            Err(e) => {
                proof {
                    lemma_consumed_skip(s0, s0.len() - s4.len());
                    assert(s4 =~= s0.skip(s0.len() - s4.len()));
                    lemma_consumed_trans(s0, s4, r.remaining());
                }
                return Err(e);
            },
        };
        let ghost k4 = E::spec_decode(s4)->Ok_0.1;
        let ghost s5 = r.remaining();
        proof {
            assert(s5 =~= s0.skip((k0 + k1 + k2 + k3 + k4) as int));
        }
        let v5 = match F::decode(r) {
            Ok(v) => v,
            Err(e) => {
                proof {
                    lemma_consumed_skip(s0, s0.len() - s5.len());
                    assert(s5 =~= s0.skip(s0.len() - s5.len()));
                    lemma_consumed_trans(s0, s5, r.remaining());
                }
                return Err(e);
            },
        };
        let ghost k5 = F::spec_decode(s5)->Ok_0.1;
        let ghost s6 = r.remaining();
        proof {
            assert(s6 =~= s0.skip((k0 + k1 + k2 + k3 + k4 + k5) as int));
        }
        let v6 = match G::decode(r) {
            Ok(v) => v,
            Err(e) => {
                proof {
                    lemma_consumed_skip(s0, s0.len() - s6.len());
                    assert(s6 =~= s0.skip(s0.len() - s6.len()));
                    lemma_consumed_trans(s0, s6, r.remaining());
                }
                return Err(e);
            },
        };
        let ghost k6 = G::spec_decode(s6)->Ok_0.1;
        let ghost s7 = r.remaining();
        proof {
            assert(s7 =~= s0.skip((k0 + k1 + k2 + k3 + k4 + k5 + k6) as int));
        }
        let v7 = match H::decode(r) {
            Ok(v) => v,
            Err(e) => {
                proof {
                    lemma_consumed_skip(s0, s0.len() - s7.len());
                    assert(s7 =~= s0.skip(s0.len() - s7.len()));
                    lemma_consumed_trans(s0, s7, r.remaining());
                }
                return Err(e);
            },
        };
        let ghost k7 = H::spec_decode(s7)->Ok_0.1;
        let ghost s8 = r.remaining();
        proof {
            assert(s8 =~= s0.skip((k0 + k1 + k2 + k3 + k4 + k5 + k6 + k7) as int));
        }
        let v8 = match I::decode(r) {
            Ok(v) => v,
            Err(e) => {
                proof {
                    lemma_consumed_skip(s0, s0.len() - s8.len());
                    assert(s8 =~= s0.skip(s0.len() - s8.len()));
                    lemma_consumed_trans(s0, s8, r.remaining());
                }
                return Err(e);
            },
        };
        let ghost k8 = I::spec_decode(s8)->Ok_0.1;
        let ghost s9 = r.remaining();
        proof {
            assert(s9 =~= s0.skip((k0 + k1 + k2 + k3 + k4 + k5 + k6 + k7 + k8) as int));
        }
        let v9 = match J::decode(r) {
            Ok(v) => v,
            Err(e) => {
                proof {
                    lemma_consumed_skip(s0, s0.len() - s9.len());
                    assert(s9 =~= s0.skip(s0.len() - s9.len()));
                    lemma_consumed_trans(s0, s9, r.remaining());
                }
                return Err(e);
            },
        };
        let ghost k9 = J::spec_decode(s9)->Ok_0.1;
        let ghost s10 = r.remaining();
        proof {
            assert(s10 =~= s0.skip((k0 + k1 + k2 + k3 + k4 + k5 + k6 + k7 + k8 + k9) as int));
        }
        Ok((v0, v1, v2, v3, v4, v5, v6, v7, v8, v9))
    }
}

impl<A: RoundTrip, B: RoundTrip, C: RoundTrip, D: RoundTrip, E: RoundTrip, F: RoundTrip, G: RoundTrip, H: RoundTrip, I: RoundTrip, J: RoundTrip> RoundTrip for (A, B, C, D, E, F, G, H, I, J) {
    open spec fn spec_round_trips(m: (A::Model, B::Model, C::Model, D::Model, E::Model, F::Model, G::Model, H::Model, I::Model, J::Model)) -> bool {
        &&& A::spec_round_trips(m.0)
        &&& B::spec_round_trips(m.1)
        &&& C::spec_round_trips(m.2)
        &&& D::spec_round_trips(m.3)
        &&& E::spec_round_trips(m.4)
        &&& F::spec_round_trips(m.5)
        &&& G::spec_round_trips(m.6)
        &&& H::spec_round_trips(m.7)
        &&& I::spec_round_trips(m.8)
        &&& J::spec_round_trips(m.9)
    }

    #[verifier::rlimit(40)]
    proof fn lemma_round_trip(x: &Self, rest: Seq<bool>) {
        let (x0, x1, x2, x3, x4, x5, x6, x7, x8, x9) = x;
        let e0 = A::spec_encode(x0.model())->Ok_0;
        let e1 = B::spec_encode(x1.model())->Ok_0;
        let e2 = C::spec_encode(x2.model())->Ok_0;
        let e3 = D::spec_encode(x3.model())->Ok_0;
        let e4 = E::spec_encode(x4.model())->Ok_0;
        let e5 = F::spec_encode(x5.model())->Ok_0;
        let e6 = G::spec_encode(x6.model())->Ok_0;
        let e7 = H::spec_encode(x7.model())->Ok_0;
        let e8 = I::spec_encode(x8.model())->Ok_0;
        let e9 = J::spec_encode(x9.model())->Ok_0;
        let t10 = rest;
        let t9 = e9 + t10;
        let t8 = e8 + t9;
        let t7 = e7 + t8;
        let t6 = e6 + t7;
        let t5 = e5 + t6;
        let t4 = e4 + t5;
        let t3 = e3 + t4;
        let t2 = e2 + t3;
        let t1 = e1 + t2;
        let t0 = e0 + t1;
        A::lemma_round_trip(x0, t1);
        B::lemma_round_trip(x1, t2);
        C::lemma_round_trip(x2, t3);
        D::lemma_round_trip(x3, t4);
        E::lemma_round_trip(x4, t5);
        F::lemma_round_trip(x5, t6);
        G::lemma_round_trip(x6, t7);
        H::lemma_round_trip(x7, t8);
        I::lemma_round_trip(x8, t9);
        J::lemma_round_trip(x9, t10);
        assert(e0 + t1 =~= t0);
        assert((e0 + e1) + t2 =~= e0 + t1);
        assert(((e0 + e1) + e2) + t3 =~= (e0 + e1) + t2);
        assert((((e0 + e1) + e2) + e3) + t4 =~= ((e0 + e1) + e2) + t3);
        assert(((((e0 + e1) + e2) + e3) + e4) + t5 =~= (((e0 + e1) + e2) + e3) + t4);
        assert((((((e0 + e1) + e2) + e3) + e4) + e5) + t6 =~= ((((e0 + e1) + e2) + e3) + e4) + t5);
        assert(((((((e0 + e1) + e2) + e3) + e4) + e5) + e6) + t7 =~= (((((e0 + e1) + e2) + e3) + e4) + e5) + t6);
        assert((((((((e0 + e1) + e2) + e3) + e4) + e5) + e6) + e7) + t8 =~= ((((((e0 + e1) + e2) + e3) + e4) + e5) + e6) + t7);
        assert(((((((((e0 + e1) + e2) + e3) + e4) + e5) + e6) + e7) + e8) + t9 =~= (((((((e0 + e1) + e2) + e3) + e4) + e5) + e6) + e7) + t8);
        assert((((((((((e0 + e1) + e2) + e3) + e4) + e5) + e6) + e7) + e8) + e9) + t10 =~= ((((((((e0 + e1) + e2) + e3) + e4) + e5) + e6) + e7) + e8) + t9);
        assert(t0.skip(e0.len() as int) =~= t1);
        lemma_skip_skip(t0, (e0.len()) as int, e1.len() as int);
        assert(t1.skip(e1.len() as int) =~= t2);
        lemma_skip_skip(t0, (e0.len() + e1.len()) as int, e2.len() as int);
        assert(t2.skip(e2.len() as int) =~= t3);
        lemma_skip_skip(t0, (e0.len() + e1.len() + e2.len()) as int, e3.len() as int);
        assert(t3.skip(e3.len() as int) =~= t4);
        lemma_skip_skip(t0, (e0.len() + e1.len() + e2.len() + e3.len()) as int, e4.len() as int);
        assert(t4.skip(e4.len() as int) =~= t5);
        lemma_skip_skip(t0, (e0.len() + e1.len() + e2.len() + e3.len() + e4.len()) as int, e5.len() as int);
        assert(t5.skip(e5.len() as int) =~= t6);
        lemma_skip_skip(t0, (e0.len() + e1.len() + e2.len() + e3.len() + e4.len() + e5.len()) as int, e6.len() as int);
        assert(t6.skip(e6.len() as int) =~= t7);
        lemma_skip_skip(t0, (e0.len() + e1.len() + e2.len() + e3.len() + e4.len() + e5.len() + e6.len()) as int, e7.len() as int);
        assert(t7.skip(e7.len() as int) =~= t8);
        lemma_skip_skip(t0, (e0.len() + e1.len() + e2.len() + e3.len() + e4.len() + e5.len() + e6.len() + e7.len()) as int, e8.len() as int);
        assert(t8.skip(e8.len() as int) =~= t9);
    }
}

impl<A: Modeled, B: Modeled, C: Modeled, D: Modeled, E: Modeled, F: Modeled, G: Modeled, H: Modeled, I: Modeled, J: Modeled, K: Modeled> Modeled for (A, B, C, D, E, F, G, H, I, J, K) {
    type Model = (A::Model, B::Model, C::Model, D::Model, E::Model, F::Model, G::Model, H::Model, I::Model, J::Model, K::Model);

    open spec fn model(&self) -> (A::Model, B::Model, C::Model, D::Model, E::Model, F::Model, G::Model, H::Model, I::Model, J::Model, K::Model) {
        (self.0.model(), self.1.model(), self.2.model(), self.3.model(), self.4.model(), self.5.model(), self.6.model(), self.7.model(), self.8.model(), self.9.model(), self.10.model())
    }
}

impl<A: BitEncode, B: BitEncode, C: BitEncode, D: BitEncode, E: BitEncode, F: BitEncode, G: BitEncode, H: BitEncode, I: BitEncode, J: BitEncode, K: BitEncode> BitEncode for (A, B, C, D, E, F, G, H, I, J, K) {
    open spec fn spec_encode(m: (A::Model, B::Model, C::Model, D::Model, E::Model, F::Model, G::Model, H::Model, I::Model, J::Model, K::Model)) -> Result<Seq<bool>, CodecError> {
        then_enc(then_enc(then_enc(then_enc(then_enc(then_enc(then_enc(then_enc(then_enc(then_enc(A::spec_encode(m.0), B::spec_encode(m.1)), C::spec_encode(m.2)), D::spec_encode(m.3)), E::spec_encode(m.4)), F::spec_encode(m.5)), G::spec_encode(m.6)), H::spec_encode(m.7)), I::spec_encode(m.8)), J::spec_encode(m.9)), K::spec_encode(m.10))
    }

    #[verifier::rlimit(40)]
    fn encode(&self, w: &mut BitWriter) -> (res: Result<(), CodecError>) {
        let ghost start = w.bits();
        let (x0, x1, x2, x3, x4, x5, x6, x7, x8, x9, x10) = self;
        match x0.encode(w) {
            Ok(()) => {},
            Err(e) => {
                return Err(e);
            },
        }
        let ghost b1 = w.bits();
        let r1 = x1.encode(w);
        proof {
            if let (Ok(p), Ok(q)) = (A::spec_encode(x0.model()), B::spec_encode(x1.model())) {
                assert((start + p) + q =~= start + (p + q));
            }
        }
        match r1 {
            Ok(()) => {},
            Err(e) => {
                proof {
                    assert(start.is_prefix_of(b1)) by {
                        assert(start =~= b1.subrange(0, start.len() as int));
                    }
                    lemma_prefix_trans(start, b1, w.bits());
                }
                return Err(e);
            },
        }
        let ghost b2 = w.bits();
        let r2 = x2.encode(w);
        proof {
            if let (Ok(p), Ok(q)) = (then_enc(A::spec_encode(x0.model()), B::spec_encode(x1.model())), C::spec_encode(x2.model())) {
                assert((start + p) + q =~= start + (p + q));
            }
        }
        match r2 {
            Ok(()) => {},
            Err(e) => {
                proof {
                    assert(start.is_prefix_of(b2)) by {
                        assert(start =~= b2.subrange(0, start.len() as int));
                    }
                    lemma_prefix_trans(start, b2, w.bits());
                }
                return Err(e);
            },
        }
        let ghost b3 = w.bits();
        let r3 = x3.encode(w);
        proof {
            if let (Ok(p), Ok(q)) = (then_enc(then_enc(A::spec_encode(x0.model()), B::spec_encode(x1.model())), C::spec_encode(x2.model())), D::spec_encode(x3.model())) {
                assert((start + p) + q =~= start + (p + q));
            }
        }
        match r3 {
            Ok(()) => {},
            Err(e) => {
                proof {
                    assert(start.is_prefix_of(b3)) by {
                        assert(start =~= b3.subrange(0, start.len() as int));
                    }
                    lemma_prefix_trans(start, b3, w.bits());
                }
                return Err(e);
            },
        }
        let ghost b4 = w.bits();
        let r4 = x4.encode(w);
        proof {
            if let (Ok(p), Ok(q)) = (then_enc(then_enc(then_enc(A::spec_encode(x0.model()), B::spec_encode(x1.model())), C::spec_encode(x2.model())), D::spec_encode(x3.model())), E::spec_encode(x4.model())) {
                assert((start + p) + q =~= start + (p + q));
            }
        }
        match r4 {
            Ok(()) => {},
            Err(e) => {
                proof {
                    assert(start.is_prefix_of(b4)) by {
                        assert(start =~= b4.subrange(0, start.len() as int));
                    }
                    lemma_prefix_trans(start, b4, w.bits());
                }
                return Err(e);
            },
        }
        let ghost b5 = w.bits();
        let r5 = x5.encode(w);
        proof {
            if let (Ok(p), Ok(q)) = (then_enc(then_enc(then_enc(then_enc(A::spec_encode(x0.model()), B::spec_encode(x1.model())), C::spec_encode(x2.model())), D::spec_encode(x3.model())), E::spec_encode(x4.model())), F::spec_encode(x5.model())) {
                assert((start + p) + q =~= start + (p + q));
            }
        }
        match r5 {
            Ok(()) => {},
            Err(e) => {
                proof {
                    assert(start.is_prefix_of(b5)) by {
                        assert(start =~= b5.subrange(0, start.len() as int));
                    }
                    lemma_prefix_trans(start, b5, w.bits());
                }
                return Err(e);
            },
        }
        let ghost b6 = w.bits();
        let r6 = x6.encode(w);
        proof {
            if let (Ok(p), Ok(q)) = (then_enc(then_enc(then_enc(then_enc(then_enc(A::spec_encode(x0.model()), B::spec_encode(x1.model())), C::spec_encode(x2.model())), D::spec_encode(x3.model())), E::spec_encode(x4.model())), F::spec_encode(x5.model())), G::spec_encode(x6.model())) {
                assert((start + p) + q =~= start + (p + q));
            }
        }
        match r6 {
            Ok(()) => {},
            Err(e) => {
                proof {
                    assert(start.is_prefix_of(b6)) by {
                        assert(start =~= b6.subrange(0, start.len() as int));
                    }
                    lemma_prefix_trans(start, b6, w.bits());
                }
                return Err(e);
            },
        }
        let ghost b7 = w.bits();
        let r7 = x7.encode(w);
        proof {
            if let (Ok(p), Ok(q)) = (then_enc(then_enc(then_enc(then_enc(then_enc(then_enc(A::spec_encode(x0.model()), B::spec_encode(x1.model())), C::spec_encode(x2.model())), D::spec_encode(x3.model())), E::spec_encode(x4.model())), F::spec_encode(x5.model())), G::spec_encode(x6.model())), H::spec_encode(x7.model())) {
                assert((start + p) + q =~= start + (p + q));
            }
        }
        match r7 {
            Ok(()) => {},
            Err(e) => {
                proof {
                    assert(start.is_prefix_of(b7)) by {
                        assert(start =~= b7.subrange(0, start.len() as int));
                    }
                    lemma_prefix_trans(start, b7, w.bits());
                }
                return Err(e);
            },
        }
        let ghost b8 = w.bits();
        let r8 = x8.encode(w);
        proof {
            if let (Ok(p), Ok(q)) = (then_enc(then_enc(then_enc(then_enc(then_enc(then_enc(then_enc(A::spec_encode(x0.model()), B::spec_encode(x1.model())), C::spec_encode(x2.model())), D::spec_encode(x3.model())), E::spec_encode(x4.model())), F::spec_encode(x5.model())), G::spec_encode(x6.model())), H::spec_encode(x7.model())), I::spec_encode(x8.model())) {
                assert((start + p) + q =~= start + (p + q));
            }
        }
        match r8 {
            Ok(()) => {},
            Err(e) => {
                proof {
                    assert(start.is_prefix_of(b8)) by {
                        assert(start =~= b8.subrange(0, start.len() as int));
                    }
                    lemma_prefix_trans(start, b8, w.bits());
                }
                return Err(e);
            },
        }
        let ghost b9 = w.bits();
        let r9 = x9.encode(w);
        proof {
            if let (Ok(p), Ok(q)) = (then_enc(then_enc(then_enc(then_enc(then_enc(then_enc(then_enc(then_enc(A::spec_encode(x0.model()), B::spec_encode(x1.model())), C::spec_encode(x2.model())), D::spec_encode(x3.model())), E::spec_encode(x4.model())), F::spec_encode(x5.model())), G::spec_encode(x6.model())), H::spec_encode(x7.model())), I::spec_encode(x8.model())), J::spec_encode(x9.model())) {
                assert((start + p) + q =~= start + (p + q));
            }
        }
        match r9 {
            Ok(()) => {},
            Err(e) => {
                proof {
                    assert(start.is_prefix_of(b9)) by {
                        assert(start =~= b9.subrange(0, start.len() as int));
                    }
                    lemma_prefix_trans(start, b9, w.bits());
                }
                return Err(e);
            },
        }
        let ghost b10 = w.bits();
        let r10 = x10.encode(w);
        proof {
            if let (Ok(p), Ok(q)) = (then_enc(then_enc(then_enc(then_enc(then_enc(then_enc(then_enc(then_enc(then_enc(A::spec_encode(x0.model()), B::spec_encode(x1.model())), C::spec_encode(x2.model())), D::spec_encode(x3.model())), E::spec_encode(x4.model())), F::spec_encode(x5.model())), G::spec_encode(x6.model())), H::spec_encode(x7.model())), I::spec_encode(x8.model())), J::spec_encode(x9.model())), K::spec_encode(x10.model())) {
                assert((start + p) + q =~= start + (p + q));
            }
        }
        match r10 {
            Ok(()) => {},
            Err(e) => {
                proof {
                    assert(start.is_prefix_of(b10)) by {
                        assert(start =~= b10.subrange(0, start.len() as int));
                    }
                    lemma_prefix_trans(start, b10, w.bits());
                }
                return Err(e);
            },
        }
        Ok(())
    }
}

impl<A: BitDecode, B: BitDecode, C: BitDecode, D: BitDecode, E: BitDecode, F: BitDecode, G: BitDecode, H: BitDecode, I: BitDecode, J: BitDecode, K: BitDecode> BitDecode for (A, B, C, D, E, F, G, H, I, J, K) {
    open spec fn spec_decode(bits: Seq<bool>) -> Result<((A::Model, B::Model, C::Model, D::Model, E::Model, F::Model, G::Model, H::Model, I::Model, J::Model, K::Model), nat), CodecError> {
        match A::spec_decode(bits) {
            Err(e) => Err(e),
            Ok((m0, k0)) =>
                match B::spec_decode(bits.skip((k0) as int)) {
                    Err(e) => Err(e),
                    Ok((m1, k1)) =>
                        match C::spec_decode(bits.skip((k0 + k1) as int)) {
                            Err(e) => Err(e),
                            Ok((m2, k2)) =>
                                match D::spec_decode(bits.skip((k0 + k1 + k2) as int)) {
                                    Err(e) => Err(e),
                                    Ok((m3, k3)) =>
                                        match E::spec_decode(bits.skip((k0 + k1 + k2 + k3) as int)) {
                                            Err(e) => Err(e),
                                            Ok((m4, k4)) =>
                                                match F::spec_decode(bits.skip((k0 + k1 + k2 + k3 + k4) as int)) {
                                                    Err(e) => Err(e),
                                                    Ok((m5, k5)) =>
                                                        match G::spec_decode(bits.skip((k0 + k1 + k2 + k3 + k4 + k5) as int)) {
                                                            Err(e) => Err(e),
                                                            Ok((m6, k6)) =>
                                                                match H::spec_decode(bits.skip((k0 + k1 + k2 + k3 + k4 + k5 + k6) as int)) {
                                                                    Err(e) => Err(e),
                                                                    Ok((m7, k7)) =>
                                                                        match I::spec_decode(bits.skip((k0 + k1 + k2 + k3 + k4 + k5 + k6 + k7) as int)) {
                                                                            Err(e) => Err(e),
                                                                            Ok((m8, k8)) =>
                                                                                match J::spec_decode(bits.skip((k0 + k1 + k2 + k3 + k4 + k5 + k6 + k7 + k8) as int)) {
                                                                                    Err(e) => Err(e),
                                                                                    Ok((m9, k9)) =>
                                                                                        match K::spec_decode(bits.skip((k0 + k1 + k2 + k3 + k4 + k5 + k6 + k7 + k8 + k9) as int)) {
                                                                                            Err(e) => Err(e),
                                                                                            Ok((m10, k10)) => Ok(((m0, m1, m2, m3, m4, m5, m6, m7, m8, m9, m10), k0 + k1 + k2 + k3 + k4 + k5 + k6 + k7 + k8 + k9 + k10)),
                                                                                        },
                                                                                },
                                                                        },
                                                                },
                                                        },
                                                },
                                        },
                                },
                        },
                },
        }
    }

    #[verifier::rlimit(40)]
    fn decode(r: &mut BitReader) -> (res: Result<Self, CodecError>) {
        let ghost s0 = r.remaining();
        let v0 = match A::decode(r) {
            Ok(v) => v,
            Err(e) => {
                return Err(e);
            },
        };
        let ghost k0 = A::spec_decode(s0)->Ok_0.1;
        let ghost s1 = r.remaining();
        let v1 = match B::decode(r) {
            Ok(v) => v,
            Err(e) => {
                proof {
                    lemma_consumed_skip(s0, s0.len() - s1.len());
                    assert(s1 =~= s0.skip(s0.len() - s1.len()));
                    lemma_consumed_trans(s0, s1, r.remaining());
                }
                return Err(e);
            },
        };
        let ghost k1 = B::spec_decode(s1)->Ok_0.1;
        let ghost s2 = r.remaining();
        proof {
            assert(s2 =~= s0.skip((k0 + k1) as int));
        }
        let v2 = match C::decode(r) {
            Ok(v) => v,
            Err(e) => {
                proof {
                    lemma_consumed_skip(s0, s0.len() - s2.len());
                    assert(s2 =~= s0.skip(s0.len() - s2.len()));
                    lemma_consumed_trans(s0, s2, r.remaining());
                }
                return Err(e);
            },
        };
        let ghost k2 = C::spec_decode(s2)->Ok_0.1;
        let ghost s3 = r.remaining();
        proof {
            assert(s3 =~= s0.skip((k0 + k1 + k2) as int));
        }
        let v3 = match D::decode(r) {
            Ok(v) => v,
            Err(e) => {
                proof {
                    lemma_consumed_skip(s0, s0.len() - s3.len());
                    assert(s3 =~= s0.skip(s0.len() - s3.len()));
                    lemma_consumed_trans(s0, s3, r.remaining());
                }
                return Err(e);
            },
        };
        let ghost k3 = D::spec_decode(s3)->Ok_0.1;
        let ghost s4 = r.remaining();
        proof {
            assert(s4 =~= s0.skip((k0 + k1 + k2 + k3) as int));
        }
        let v4 = match E::decode(r) {
            Ok(v) => v,
            Err(e) => {
                proof {
                    lemma_consumed_skip(s0, s0.len() - s4.len());
                    assert(s4 =~= s0.skip(s0.len() - s4.len()));
                    lemma_consumed_trans(s0, s4, r.remaining());
                }
                return Err(e);
            },
        };
        let ghost k4 = E::spec_decode(s4)->Ok_0.1;
        let ghost s5 = r.remaining();
        proof {
            assert(s5 =~= s0.skip((k0 + k1 + k2 + k3 + k4) as int));
        }
        let v5 = match F::decode(r) {
            Ok(v) => v,
            Err(e) => {
                proof {
                    lemma_consumed_skip(s0, s0.len() - s5.len());
                    assert(s5 =~= s0.skip(s0.len() - s5.len()));
                    lemma_consumed_trans(s0, s5, r.remaining());
                }
                return Err(e);
            },
        };
        let ghost k5 = F::spec_decode(s5)->Ok_0.1;
        let ghost s6 = r.remaining();
        proof {
            assert(s6 =~= s0.skip((k0 + k1 + k2 + k3 + k4 + k5) as int));
        }
        let v6 = match G::decode(r) {
            Ok(v) => v,
            Err(e) => {
                proof {
                    lemma_consumed_skip(s0, s0.len() - s6.len());
                    assert(s6 =~= s0.skip(s0.len() - s6.len()));
                    lemma_consumed_trans(s0, s6, r.remaining());
                }
                return Err(e);
            },
        };
        let ghost k6 = G::spec_decode(s6)->Ok_0.1;
        let ghost s7 = r.remaining();
        proof {
            assert(s7 =~= s0.skip((k0 + k1 + k2 + k3 + k4 + k5 + k6) as int));
        }
        let v7 = match H::decode(r) {
            Ok(v) => v,
            Err(e) => {
                proof {
                    lemma_consumed_skip(s0, s0.len() - s7.len());
                    assert(s7 =~= s0.skip(s0.len() - s7.len()));
                    lemma_consumed_trans(s0, s7, r.remaining());
                }
                return Err(e);
            },
        };
        let ghost k7 = H::spec_decode(s7)->Ok_0.1;
        let ghost s8 = r.remaining();
        proof {
            assert(s8 =~= s0.skip((k0 + k1 + k2 + k3 + k4 + k5 + k6 + k7) as int));
        }
        let v8 = match I::decode(r) {
            Ok(v) => v,
            Err(e) => {
                proof {
                    lemma_consumed_skip(s0, s0.len() - s8.len());
                    assert(s8 =~= s0.skip(s0.len() - s8.len()));
                    lemma_consumed_trans(s0, s8, r.remaining());
                }
                return Err(e);
            },
        };
        let ghost k8 = I::spec_decode(s8)->Ok_0.1;
        let ghost s9 = r.remaining();
        proof {
            assert(s9 =~= s0.skip((k0 + k1 + k2 + k3 + k4 + k5 + k6 + k7 + k8) as int));
        }
        let v9 = match J::decode(r) {
            Ok(v) => v,
            Err(e) => {
                proof {
                    lemma_consumed_skip(s0, s0.len() - s9.len());
                    assert(s9 =~= s0.skip(s0.len() - s9.len()));
                    lemma_consumed_trans(s0, s9, r.remaining());
                }
                return Err(e);
            },
        };
        let ghost k9 = J::spec_decode(s9)->Ok_0.1;
        let ghost s10 = r.remaining();
        proof {
            assert(s10 =~= s0.skip((k0 + k1 + k2 + k3 + k4 + k5 + k6 + k7 + k8 + k9) as int));
        }
        let v10 = match K::decode(r) {
            Ok(v) => v,
            Err(e) => {
                proof {
                    lemma_consumed_skip(s0, s0.len() - s10.len());
                    assert(s10 =~= s0.skip(s0.len() - s10.len()));
                    lemma_consumed_trans(s0, s10, r.remaining());
                }
                return Err(e);
            },
        };
        let ghost k10 = K::spec_decode(s10)->Ok_0.1;
        let ghost s11 = r.remaining();
        proof {
            assert(s11 =~= s0.skip((k0 + k1 + k2 + k3 + k4 + k5 + k6 + k7 + k8 + k9 + k10) as int));
        }
        Ok((v0, v1, v2, v3, v4, v5, v6, v7, v8, v9, v10))
    }
}

impl<A: RoundTrip, B: RoundTrip, C: RoundTrip, D: RoundTrip, E: RoundTrip, F: RoundTrip, G: RoundTrip, H: RoundTrip, I: RoundTrip, J: RoundTrip, K: RoundTrip> RoundTrip for (A, B, C, D, E, F, G, H, I, J, K) {
    open spec fn spec_round_trips(m: (A::Model, B::Model, C::Model, D::Model, E::Model, F::Model, G::Model, H::Model, I::Model, J::Model, K::Model)) -> bool {
        &&& A::spec_round_trips(m.0)
        &&& B::spec_round_trips(m.1)
        &&& C::spec_round_trips(m.2)
        &&& D::spec_round_trips(m.3)
        &&& E::spec_round_trips(m.4)
        &&& F::spec_round_trips(m.5)
        &&& G::spec_round_trips(m.6)
        &&& H::spec_round_trips(m.7)
        &&& I::spec_round_trips(m.8)
        &&& J::spec_round_trips(m.9)
        &&& K::spec_round_trips(m.10)
    }

    #[verifier::rlimit(40)]
    proof fn lemma_round_trip(x: &Self, rest: Seq<bool>) {
        let (x0, x1, x2, x3, x4, x5, x6, x7, x8, x9, x10) = x;
        let e0 = A::spec_encode(x0.model())->Ok_0;
        let e1 = B::spec_encode(x1.model())->Ok_0;
        let e2 = C::spec_encode(x2.model())->Ok_0;
        let e3 = D::spec_encode(x3.model())->Ok_0;
        let e4 = E::spec_encode(x4.model())->Ok_0;
        let e5 = F::spec_encode(x5.model())->Ok_0;
        let e6 = G::spec_encode(x6.model())->Ok_0;
        let e7 = H::spec_encode(x7.model())->Ok_0;
        let e8 = I::spec_encode(x8.model())->Ok_0;
        let e9 = J::spec_encode(x9.model())->Ok_0;
        let e10 = K::spec_encode(x10.model())->Ok_0;
        let t11 = rest;
        let t10 = e10 + t11;
        let t9 = e9 + t10;
        let t8 = e8 + t9;
        let t7 = e7 + t8;
        let t6 = e6 + t7;
        let t5 = e5 + t6;
        let t4 = e4 + t5;
        let t3 = e3 + t4;
        let t2 = e2 + t3;
        let t1 = e1 + t2;
        let t0 = e0 + t1;
        A::lemma_round_trip(x0, t1);
        B::lemma_round_trip(x1, t2);
        C::lemma_round_trip(x2, t3);
        D::lemma_round_trip(x3, t4);
        E::lemma_round_trip(x4, t5);
        F::lemma_round_trip(x5, t6);
        G::lemma_round_trip(x6, t7);
        H::lemma_round_trip(x7, t8);
        I::lemma_round_trip(x8, t9);
        J::lemma_round_trip(x9, t10);
        K::lemma_round_trip(x10, t11);
        assert(e0 + t1 =~= t0);
        assert((e0 + e1) + t2 =~= e0 + t1);
        assert(((e0 + e1) + e2) + t3 =~= (e0 + e1) + t2);
        assert((((e0 + e1) + e2) + e3) + t4 =~= ((e0 + e1) + e2) + t3);
        assert(((((e0 + e1) + e2) + e3) + e4) + t5 =~= (((e0 + e1) + e2) + e3) + t4);
        assert((((((e0 + e1) + e2) + e3) + e4) + e5) + t6 =~= ((((e0 + e1) + e2) + e3) + e4) + t5);
        assert(((((((e0 + e1) + e2) + e3) + e4) + e5) + e6) + t7 =~= (((((e0 + e1) + e2) + e3) + e4) + e5) + t6);
        assert((((((((e0 + e1) + e2) + e3) + e4) + e5) + e6) + e7) + t8 =~= ((((((e0 + e1) + e2) + e3) + e4) + e5) + e6) + t7);
        assert(((((((((e0 + e1) + e2) + e3) + e4) + e5) + e6) + e7) + e8) + t9 =~= (((((((e0 + e1) + e2) + e3) + e4) + e5) + e6) + e7) + t8);
        assert((((((((((e0 + e1) + e2) + e3) + e4) + e5) + e6) + e7) + e8) + e9) + t10 =~= ((((((((e0 + e1) + e2) + e3) + e4) + e5) + e6) + e7) + e8) + t9);
        assert(((((((((((e0 + e1) + e2) + e3) + e4) + e5) + e6) + e7) + e8) + e9) + e10) + t11 =~= (((((((((e0 + e1) + e2) + e3) + e4) + e5) + e6) + e7) + e8) + e9) + t10);
        assert(t0.skip(e0.len() as int) =~= t1);
        lemma_skip_skip(t0, (e0.len()) as int, e1.len() as int);
        assert(t1.skip(e1.len() as int) =~= t2);
        lemma_skip_skip(t0, (e0.len() + e1.len()) as int, e2.len() as int);
        assert(t2.skip(e2.len() as int) =~= t3);
        lemma_skip_skip(t0, (e0.len() + e1.len() + e2.len()) as int, e3.len() as int);
        assert(t3.skip(e3.len() as int) =~= t4);
        lemma_skip_skip(t0, (e0.len() + e1.len() + e2.len() + e3.len()) as int, e4.len() as int);
        assert(t4.skip(e4.len() as int) =~= t5);
        lemma_skip_skip(t0, (e0.len() + e1.len() + e2.len() + e3.len() + e4.len()) as int, e5.len() as int);
        assert(t5.skip(e5.len() as int) =~= t6);
        lemma_skip_skip(t0, (e0.len() + e1.len() + e2.len() + e3.len() + e4.len() + e5.len()) as int, e6.len() as int);
        assert(t6.skip(e6.len() as int) =~= t7);
        lemma_skip_skip(t0, (e0.len() + e1.len() + e2.len() + e3.len() + e4.len() + e5.len() + e6.len()) as int, e7.len() as int);
        assert(t7.skip(e7.len() as int) =~= t8);
        lemma_skip_skip(t0, (e0.len() + e1.len() + e2.len() + e3.len() + e4.len() + e5.len() + e6.len() + e7.len()) as int, e8.len() as int);
        assert(t8.skip(e8.len() as int) =~= t9);
        lemma_skip_skip(t0, (e0.len() + e1.len() + e2.len() + e3.len() + e4.len() + e5.len() + e6.len() + e7.len() + e8.len()) as int, e9.len() as int);
        assert(t9.skip(e9.len() as int) =~= t10);
    }
}

impl<A: Modeled, B: Modeled, C: Modeled, D: Modeled, E: Modeled, F: Modeled, G: Modeled, H: Modeled, I: Modeled, J: Modeled, K: Modeled, L: Modeled> Modeled for (A, B, C, D, E, F, G, H, I, J, K, L) {
    type Model = (A::Model, B::Model, C::Model, D::Model, E::Model, F::Model, G::Model, H::Model, I::Model, J::Model, K::Model, L::Model);

    open spec fn model(&self) -> (A::Model, B::Model, C::Model, D::Model, E::Model, F::Model, G::Model, H::Model, I::Model, J::Model, K::Model, L::Model) {
        (self.0.model(), self.1.model(), self.2.model(), self.3.model(), self.4.model(), self.5.model(), self.6.model(), self.7.model(), self.8.model(), self.9.model(), self.10.model(), self.11.model())
    }
}

impl<A: BitEncode, B: BitEncode, C: BitEncode, D: BitEncode, E: BitEncode, F: BitEncode, G: BitEncode, H: BitEncode, I: BitEncode, J: BitEncode, K: BitEncode, L: BitEncode> BitEncode for (A, B, C, D, E, F, G, H, I, J, K, L) {
    open spec fn spec_encode(m: (A::Model, B::Model, C::Model, D::Model, E::Model, F::Model, G::Model, H::Model, I::Model, J::Model, K::Model, L::Model)) -> Result<Seq<bool>, CodecError> {
        then_enc(then_enc(then_enc(then_enc(then_enc(then_enc(then_enc(then_enc(then_enc(then_enc(then_enc(A::spec_encode(m.0), B::spec_encode(m.1)), C::spec_encode(m.2)), D::spec_encode(m.3)), E::spec_encode(m.4)), F::spec_encode(m.5)), G::spec_encode(m.6)), H::spec_encode(m.7)), I::spec_encode(m.8)), J::spec_encode(m.9)), K::spec_encode(m.10)), L::spec_encode(m.11))
    }

    #[verifier::rlimit(40)]
    fn encode(&self, w: &mut BitWriter) -> (res: Result<(), CodecError>) {
        let ghost start = w.bits();
        let (x0, x1, x2, x3, x4, x5, x6, x7, x8, x9, x10, x11) = self;
        match x0.encode(w) {
            Ok(()) => {},
            Err(e) => {
                return Err(e);
            },
        }
        let ghost b1 = w.bits();
        let r1 = x1.encode(w);
        proof {
            if let (Ok(p), Ok(q)) = (A::spec_encode(x0.model()), B::spec_encode(x1.model())) {
                assert((start + p) + q =~= start + (p + q));
            }
        }
        match r1 {
            Ok(()) => {},
            Err(e) => {
                proof {
                    assert(start.is_prefix_of(b1)) by {
                        assert(start =~= b1.subrange(0, start.len() as int));
                    }
                    lemma_prefix_trans(start, b1, w.bits());
                }
                return Err(e);
            },
        }
        let ghost b2 = w.bits();
        let r2 = x2.encode(w);
        proof {
            if let (Ok(p), Ok(q)) = (then_enc(A::spec_encode(x0.model()), B::spec_encode(x1.model())), C::spec_encode(x2.model())) {
                assert((start + p) + q =~= start + (p + q));
            }
        }
        match r2 {
            Ok(()) => {},
            Err(e) => {
                proof {
                    assert(start.is_prefix_of(b2)) by {
                        assert(start =~= b2.subrange(0, start.len() as int));
                    }
                    lemma_prefix_trans(start, b2, w.bits());
                }
                return Err(e);
            },
        }
        let ghost b3 = w.bits();
        let r3 = x3.encode(w);
        proof {
            if let (Ok(p), Ok(q)) = (then_enc(then_enc(A::spec_encode(x0.model()), B::spec_encode(x1.model())), C::spec_encode(x2.model())), D::spec_encode(x3.model())) {
                assert((start + p) + q =~= start + (p + q));
            }
        }
        match r3 {
            Ok(()) => {},
            Err(e) => {
                proof {
                    assert(start.is_prefix_of(b3)) by {
                        assert(start =~= b3.subrange(0, start.len() as int));
                    }
                    lemma_prefix_trans(start, b3, w.bits());
                }
                return Err(e);
            },
        }
        let ghost b4 = w.bits();
        let r4 = x4.encode(w);
        proof {
            if let (Ok(p), Ok(q)) = (then_enc(then_enc(then_enc(A::spec_encode(x0.model()), B::spec_encode(x1.model())), C::spec_encode(x2.model())), D::spec_encode(x3.model())), E::spec_encode(x4.model())) {
                assert((start + p) + q =~= start + (p + q));
            }
        }
        match r4 {
            Ok(()) => {},
            Err(e) => {
                proof {
                    assert(start.is_prefix_of(b4)) by {
                        assert(start =~= b4.subrange(0, start.len() as int));
                    }
                    lemma_prefix_trans(start, b4, w.bits());
                }
                return Err(e);
            },
        }
        let ghost b5 = w.bits();
        let r5 = x5.encode(w);
        proof {
            if let (Ok(p), Ok(q)) = (then_enc(then_enc(then_enc(then_enc(A::spec_encode(x0.model()), B::spec_encode(x1.model())), C::spec_encode(x2.model())), D::spec_encode(x3.model())), E::spec_encode(x4.model())), F::spec_encode(x5.model())) {
                assert((start + p) + q =~= start + (p + q));
            }
        }
        match r5 {
            Ok(()) => {},
            Err(e) => {
                proof {
                    assert(start.is_prefix_of(b5)) by {
                        assert(start =~= b5.subrange(0, start.len() as int));
                    }
                    lemma_prefix_trans(start, b5, w.bits());
                }
                return Err(e);
            },
        }
        let ghost b6 = w.bits();
        let r6 = x6.encode(w);
        proof {
            if let (Ok(p), Ok(q)) = (then_enc(then_enc(then_enc(then_enc(then_enc(A::spec_encode(x0.model()), B::spec_encode(x1.model())), C::spec_encode(x2.model())), D::spec_encode(x3.model())), E::spec_encode(x4.model())), F::spec_encode(x5.model())), G::spec_encode(x6.model())) {
                assert((start + p) + q =~= start + (p + q));
            }
        }
        match r6 {
            Ok(()) => {},
            Err(e) => {
                proof {
                    assert(start.is_prefix_of(b6)) by {
                        assert(start =~= b6.subrange(0, start.len() as int));
                    }
                    lemma_prefix_trans(start, b6, w.bits());
                }
                return Err(e);
            },
        }
        let ghost b7 = w.bits();
        let r7 = x7.encode(w);
        proof {
            if let (Ok(p), Ok(q)) = (then_enc(then_enc(then_enc(then_enc(then_enc(then_enc(A::spec_encode(x0.model()), B::spec_encode(x1.model())), C::spec_encode(x2.model())), D::spec_encode(x3.model())), E::spec_encode(x4.model())), F::spec_encode(x5.model())), G::spec_encode(x6.model())), H::spec_encode(x7.model())) {
                assert((start + p) + q =~= start + (p + q));
            }
        }
        match r7 {
            Ok(()) => {},
            Err(e) => {
                proof {
                    assert(start.is_prefix_of(b7)) by {
                        assert(start =~= b7.subrange(0, start.len() as int));
                    }
                    lemma_prefix_trans(start, b7, w.bits());
                }
                return Err(e);
            },
        }
        let ghost b8 = w.bits();
        let r8 = x8.encode(w);
        proof {
            if let (Ok(p), Ok(q)) = (then_enc(then_enc(then_enc(then_enc(then_enc(then_enc(then_enc(A::spec_encode(x0.model()), B::spec_encode(x1.model())), C::spec_encode(x2.model())), D::spec_encode(x3.model())), E::spec_encode(x4.model())), F::spec_encode(x5.model())), G::spec_encode(x6.model())), H::spec_encode(x7.model())), I::spec_encode(x8.model())) {
                assert((start + p) + q =~= start + (p + q));
            }
        }
        match r8 {
            Ok(()) => {},
            Err(e) => {
                proof {
                    assert(start.is_prefix_of(b8)) by {
                        assert(start =~= b8.subrange(0, start.len() as int));
                    }
                    lemma_prefix_trans(start, b8, w.bits());
                }
                return Err(e);
            },
        }
        let ghost b9 = w.bits();
        let r9 = x9.encode(w);
        proof {
            if let (Ok(p), Ok(q)) = (then_enc(then_enc(then_enc(then_enc(then_enc(then_enc(then_enc(then_enc(A::spec_encode(x0.model()), B::spec_encode(x1.model())), C::spec_encode(x2.model())), D::spec_encode(x3.model())), E::spec_encode(x4.model())), F::spec_encode(x5.model())), G::spec_encode(x6.model())), H::spec_encode(x7.model())), I::spec_encode(x8.model())), J::spec_encode(x9.model())) {
                assert((start + p) + q =~= start + (p + q));
            }
        }
        match r9 {
            Ok(()) => {},
            Err(e) => {
                proof {
                    assert(start.is_prefix_of(b9)) by {
                        assert(start =~= b9.subrange(0, start.len() as int));
                    }
                    lemma_prefix_trans(start, b9, w.bits());
                }
                return Err(e);
            },
        }
        let ghost b10 = w.bits();
        let r10 = x10.encode(w);
        proof {
            if let (Ok(p), Ok(q)) = (then_enc(then_enc(then_enc(then_enc(then_enc(then_enc(then_enc(then_enc(then_enc(A::spec_encode(x0.model()), B::spec_encode(x1.model())), C::spec_encode(x2.model())), D::spec_encode(x3.model())), E::spec_encode(x4.model())), F::spec_encode(x5.model())), G::spec_encode(x6.model())), H::spec_encode(x7.model())), I::spec_encode(x8.model())), J::spec_encode(x9.model())), K::spec_encode(x10.model())) {
                assert((start + p) + q =~= start + (p + q));
            }
        }
        match r10 {
            Ok(()) => {},
            Err(e) => {
                proof {
                    assert(start.is_prefix_of(b10)) by {
                        assert(start =~= b10.subrange(0, start.len() as int));
                    }
                    lemma_prefix_trans(start, b10, w.bits());
                }
                return Err(e);
            },
        }
        let ghost b11 = w.bits();
        let r11 = x11.encode(w);
        proof {
            if let (Ok(p), Ok(q)) = (then_enc(then_enc(then_enc(then_enc(then_enc(then_enc(then_enc(then_enc(then_enc(then_enc(A::spec_encode(x0.model()), B::spec_encode(x1.model())), C::spec_encode(x2.model())), D::spec_encode(x3.model())), E::spec_encode(x4.model())), F::spec_encode(x5.model())), G::spec_encode(x6.model())), H::spec_encode(x7.model())), I::spec_encode(x8.model())), J::spec_encode(x9.model())), K::spec_encode(x10.model())), L::spec_encode(x11.model())) {
                assert((start + p) + q =~= start + (p + q));
            }
        }
        match r11 {
            Ok(()) => {},
            Err(e) => {
                proof {
                    assert(start.is_prefix_of(b11)) by {
                        assert(start =~= b11.subrange(0, start.len() as int));
                    }
                    lemma_prefix_trans(start, b11, w.bits());
                }
                return Err(e);
            },
        }
        Ok(())
    }
}

impl<A: BitDecode, B: BitDecode, C: BitDecode, D: BitDecode, E: BitDecode, F: BitDecode, G: BitDecode, H: BitDecode, I: BitDecode, J: BitDecode, K: BitDecode, L: BitDecode> BitDecode for (A, B, C, D, E, F, G, H, I, J, K, L) {
    open spec fn spec_decode(bits: Seq<bool>) -> Result<((A::Model, B::Model, C::Model, D::Model, E::Model, F::Model, G::Model, H::Model, I::Model, J::Model, K::Model, L::Model), nat), CodecError> {
        match A::spec_decode(bits) {
            Err(e) => Err(e),
            Ok((m0, k0)) =>
                match B::spec_decode(bits.skip((k0) as int)) {
                    Err(e) => Err(e),
                    Ok((m1, k1)) =>
                        match C::spec_decode(bits.skip((k0 + k1) as int)) {
                            Err(e) => Err(e),
                            Ok((m2, k2)) =>
                                match D::spec_decode(bits.skip((k0 + k1 + k2) as int)) {
                                    Err(e) => Err(e),
                                    Ok((m3, k3)) =>
                                        match E::spec_decode(bits.skip((k0 + k1 + k2 + k3) as int)) {
                                            Err(e) => Err(e),
                                            Ok((m4, k4)) =>
                                                match F::spec_decode(bits.skip((k0 + k1 + k2 + k3 + k4) as int)) {
                                                    Err(e) => Err(e),
                                                    Ok((m5, k5)) =>
                                                        match G::spec_decode(bits.skip((k0 + k1 + k2 + k3 + k4 + k5) as int)) {
                                                            Err(e) => Err(e),
                                                            Ok((m6, k6)) =>
                                                                match H::spec_decode(bits.skip((k0 + k1 + k2 + k3 + k4 + k5 + k6) as int)) {
                                                                    Err(e) => Err(e),
                                                                    Ok((m7, k7)) =>
                                                                        match I::spec_decode(bits.skip((k0 + k1 + k2 + k3 + k4 + k5 + k6 + k7) as int)) {
                                                                            Err(e) => Err(e),
                                                                            Ok((m8, k8)) =>
                                                                                match J::spec_decode(bits.skip((k0 + k1 + k2 + k3 + k4 + k5 + k6 + k7 + k8) as int)) {
                                                                                    Err(e) => Err(e),
                                                                                    Ok((m9, k9)) =>
                                                                                        match K::spec_decode(bits.skip((k0 + k1 + k2 + k3 + k4 + k5 + k6 + k7 + k8 + k9) as int)) {
                                                                                            Err(e) => Err(e),
                                                                                            Ok((m10, k10)) =>
                                                                                                match L::spec_decode(bits.skip((k0 + k1 + k2 + k3 + k4 + k5 + k6 + k7 + k8 + k9 + k10) as int)) {
                                                                                                    Err(e) => Err(e),
                                                                                                    Ok((m11, k11)) => Ok(((m0, m1, m2, m3, m4, m5, m6, m7, m8, m9, m10, m11), k0 + k1 + k2 + k3 + k4 + k5 + k6 + k7 + k8 + k9 + k10 + k11)),
                                                                                                },
                                                                                        },
                                                                                },
                                                                        },
                                                                },
                                                        },
                                                },
                                        },
                                },
                        },
                },
        }
    }

    #[verifier::rlimit(40)]
    fn decode(r: &mut BitReader) -> (res: Result<Self, CodecError>) {
        let ghost s0 = r.remaining();
        let v0 = match A::decode(r) {
            Ok(v) => v,
            Err(e) => {
                return Err(e);
            },
        };
        let ghost k0 = A::spec_decode(s0)->Ok_0.1;
        let ghost s1 = r.remaining();
        let v1 = match B::decode(r) {
            Ok(v) => v,
            Err(e) => {
                proof {
                    lemma_consumed_skip(s0, s0.len() - s1.len());
                    assert(s1 =~= s0.skip(s0.len() - s1.len()));
                    lemma_consumed_trans(s0, s1, r.remaining());
                }
                return Err(e);
            },
        };
        let ghost k1 = B::spec_decode(s1)->Ok_0.1;
        let ghost s2 = r.remaining();
        proof {
            assert(s2 =~= s0.skip((k0 + k1) as int));
        }
        let v2 = match C::decode(r) {
            Ok(v) => v,
            Err(e) => {
                proof {
                    lemma_consumed_skip(s0, s0.len() - s2.len());
                    assert(s2 =~= s0.skip(s0.len() - s2.len()));
                    lemma_consumed_trans(s0, s2, r.remaining());
                }
                return Err(e);
            },
        };
        let ghost k2 = C::spec_decode(s2)->Ok_0.1;
        let ghost s3 = r.remaining();
        proof {
            assert(s3 =~= s0.skip((k0 + k1 + k2) as int));
        }
        let v3 = match D::decode(r) {
            Ok(v) => v,
            Err(e) => {
                proof {
                    lemma_consumed_skip(s0, s0.len() - s3.len());
                    assert(s3 =~= s0.skip(s0.len() - s3.len()));
                    lemma_consumed_trans(s0, s3, r.remaining());
                }
                return Err(e);
            },
        };
        let ghost k3 = D::spec_decode(s3)->Ok_0.1;
        let ghost s4 = r.remaining();
        proof {
            assert(s4 =~= s0.skip((k0 + k1 + k2 + k3) as int));
        }
        let v4 = match E::decode(r) {
            Ok(v) => v,
            Err(e) => {
                proof {
                    lemma_consumed_skip(s0, s0.len() - s4.len());
                    assert(s4 =~= s0.skip(s0.len() - s4.len()));
                    lemma_consumed_trans(s0, s4, r.remaining());
                }
                return Err(e);
            },
        };
        let ghost k4 = E::spec_decode(s4)->Ok_0.1;
        let ghost s5 = r.remaining();
        proof {
            assert(s5 =~= s0.skip((k0 + k1 + k2 + k3 + k4) as int));
        }
        let v5 = match F::decode(r) {
            Ok(v) => v,
            Err(e) => {
                proof {
                    lemma_consumed_skip(s0, s0.len() - s5.len());
                    assert(s5 =~= s0.skip(s0.len() - s5.len()));
                    lemma_consumed_trans(s0, s5, r.remaining());
                }
                return Err(e);
            },
        };
        let ghost k5 = F::spec_decode(s5)->Ok_0.1;
        let ghost s6 = r.remaining();
        proof {
            assert(s6 =~= s0.skip((k0 + k1 + k2 + k3 + k4 + k5) as int));
        }
        let v6 = match G::decode(r) {
            Ok(v) => v,
            Err(e) => {
                proof {
                    lemma_consumed_skip(s0, s0.len() - s6.len());
                    assert(s6 =~= s0.skip(s0.len() - s6.len()));
                    lemma_consumed_trans(s0, s6, r.remaining());
                }
                return Err(e);
            },
        };
        let ghost k6 = G::spec_decode(s6)->Ok_0.1;
        let ghost s7 = r.remaining();
        proof {
            assert(s7 =~= s0.skip((k0 + k1 + k2 + k3 + k4 + k5 + k6) as int));
        }
        let v7 = match H::decode(r) {
            Ok(v) => v,
            Err(e) => {
                proof {
                    lemma_consumed_skip(s0, s0.len() - s7.len());
                    assert(s7 =~= s0.skip(s0.len() - s7.len()));
                    lemma_consumed_trans(s0, s7, r.remaining());
                }
                return Err(e);
            },
        };
        let ghost k7 = H::spec_decode(s7)->Ok_0.1;
        let ghost s8 = r.remaining();
        proof {
            assert(s8 =~= s0.skip((k0 + k1 + k2 + k3 + k4 + k5 + k6 + k7) as int));
        }
        let v8 = match I::decode(r) {
            Ok(v) => v,
            Err(e) => {
                proof {
                    lemma_consumed_skip(s0, s0.len() - s8.len());
                    assert(s8 =~= s0.skip(s0.len() - s8.len()));
                    lemma_consumed_trans(s0, s8, r.remaining());
                }
                return Err(e);
            },
        };
        let ghost k8 = I::spec_decode(s8)->Ok_0.1;
        let ghost s9 = r.remaining();
        proof {
            assert(s9 =~= s0.skip((k0 + k1 + k2 + k3 + k4 + k5 + k6 + k7 + k8) as int));
        }
        let v9 = match J::decode(r) {
            Ok(v) => v,
            Err(e) => {
                proof {
                    lemma_consumed_skip(s0, s0.len() - s9.len());
                    assert(s9 =~= s0.skip(s0.len() - s9.len()));
                    lemma_consumed_trans(s0, s9, r.remaining());
                }
                return Err(e);
            },
        };
        let ghost k9 = J::spec_decode(s9)->Ok_0.1;
        let ghost s10 = r.remaining();
        proof {
            assert(s10 =~= s0.skip((k0 + k1 + k2 + k3 + k4 + k5 + k6 + k7 + k8 + k9) as int));
        }
        let v10 = match K::decode(r) {
            Ok(v) => v,
            Err(e) => {
                proof {
                    lemma_consumed_skip(s0, s0.len() - s10.len());
                    assert(s10 =~= s0.skip(s0.len() - s10.len()));
                    lemma_consumed_trans(s0, s10, r.remaining());
                }
                return Err(e);
            },
        };
        let ghost k10 = K::spec_decode(s10)->Ok_0.1;
        let ghost s11 = r.remaining();
        proof {
            assert(s11 =~= s0.skip((k0 + k1 + k2 + k3 + k4 + k5 + k6 + k7 + k8 + k9 + k10) as int));
        }
        let v11 = match L::decode(r) {
            Ok(v) => v,
            Err(e) => {
                proof {
                    lemma_consumed_skip(s0, s0.len() - s11.len());
                    assert(s11 =~= s0.skip(s0.len() - s11.len()));
                    lemma_consumed_trans(s0, s11, r.remaining());
                }
                return Err(e);
            },
        };
        let ghost k11 = L::spec_decode(s11)->Ok_0.1;
        let ghost s12 = r.remaining();
        proof {
            assert(s12 =~= s0.skip((k0 + k1 + k2 + k3 + k4 + k5 + k6 + k7 + k8 + k9 + k10 + k11) as int));
        }
        Ok((v0, v1, v2, v3, v4, v5, v6, v7, v8, v9, v10, v11))
    }
}

impl<A: RoundTrip, B: RoundTrip, C: RoundTrip, D: RoundTrip, E: RoundTrip, F: RoundTrip, G: RoundTrip, H: RoundTrip, I: RoundTrip, J: RoundTrip, K: RoundTrip, L: RoundTrip> RoundTrip for (A, B, C, D, E, F, G, H, I, J, K, L) {
    open spec fn spec_round_trips(m: (A::Model, B::Model, C::Model, D::Model, E::Model, F::Model, G::Model, H::Model, I::Model, J::Model, K::Model, L::Model)) -> bool {
        &&& A::spec_round_trips(m.0)
        &&& B::spec_round_trips(m.1)
        &&& C::spec_round_trips(m.2)
        &&& D::spec_round_trips(m.3)
        &&& E::spec_round_trips(m.4)
        &&& F::spec_round_trips(m.5)
        &&& G::spec_round_trips(m.6)
        &&& H::spec_round_trips(m.7)
        &&& I::spec_round_trips(m.8)
        &&& J::spec_round_trips(m.9)
        &&& K::spec_round_trips(m.10)
        &&& L::spec_round_trips(m.11)
    }

    #[verifier::rlimit(40)]
    proof fn lemma_round_trip(x: &Self, rest: Seq<bool>) {
        let (x0, x1, x2, x3, x4, x5, x6, x7, x8, x9, x10, x11) = x;
        let e0 = A::spec_encode(x0.model())->Ok_0;
        let e1 = B::spec_encode(x1.model())->Ok_0;
        let e2 = C::spec_encode(x2.model())->Ok_0;
        let e3 = D::spec_encode(x3.model())->Ok_0;
        let e4 = E::spec_encode(x4.model())->Ok_0;
        let e5 = F::spec_encode(x5.model())->Ok_0;
        let e6 = G::spec_encode(x6.model())->Ok_0;
        let e7 = H::spec_encode(x7.model())->Ok_0;
        let e8 = I::spec_encode(x8.model())->Ok_0;
        let e9 = J::spec_encode(x9.model())->Ok_0;
        let e10 = K::spec_encode(x10.model())->Ok_0;
        let e11 = L::spec_encode(x11.model())->Ok_0;
        let t12 = rest;
        let t11 = e11 + t12;
        let t10 = e10 + t11;
        let t9 = e9 + t10;
        let t8 = e8 + t9;
        let t7 = e7 + t8;
        let t6 = e6 + t7;
        let t5 = e5 + t6;
        let t4 = e4 + t5;
        let t3 = e3 + t4;
        let t2 = e2 + t3;
        let t1 = e1 + t2;
        let t0 = e0 + t1;
        A::lemma_round_trip(x0, t1);
        B::lemma_round_trip(x1, t2);
        C::lemma_round_trip(x2, t3);
        D::lemma_round_trip(x3, t4);
        E::lemma_round_trip(x4, t5);
        F::lemma_round_trip(x5, t6);
        G::lemma_round_trip(x6, t7);
        H::lemma_round_trip(x7, t8);
        I::lemma_round_trip(x8, t9);
        J::lemma_round_trip(x9, t10);
        K::lemma_round_trip(x10, t11);
        L::lemma_round_trip(x11, t12);
        assert(e0 + t1 =~= t0);
        assert((e0 + e1) + t2 =~= e0 + t1);
        assert(((e0 + e1) + e2) + t3 =~= (e0 + e1) + t2);
        assert((((e0 + e1) + e2) + e3) + t4 =~= ((e0 + e1) + e2) + t3);
        assert(((((e0 + e1) + e2) + e3) + e4) + t5 =~= (((e0 + e1) + e2) + e3) + t4);
        assert((((((e0 + e1) + e2) + e3) + e4) + e5) + t6 =~= ((((e0 + e1) + e2) + e3) + e4) + t5);
        assert(((((((e0 + e1) + e2) + e3) + e4) + e5) + e6) + t7 =~= (((((e0 + e1) + e2) + e3) + e4) + e5) + t6);
        assert((((((((e0 + e1) + e2) + e3) + e4) + e5) + e6) + e7) + t8 =~= ((((((e0 + e1) + e2) + e3) + e4) + e5) + e6) + t7);
        assert(((((((((e0 + e1) + e2) + e3) + e4) + e5) + e6) + e7) + e8) + t9 =~= (((((((e0 + e1) + e2) + e3) + e4) + e5) + e6) + e7) + t8);
        assert((((((((((e0 + e1) + e2) + e3) + e4) + e5) + e6) + e7) + e8) + e9) + t10 =~= ((((((((e0 + e1) + e2) + e3) + e4) + e5) + e6) + e7) + e8) + t9);
        assert(((((((((((e0 + e1) + e2) + e3) + e4) + e5) + e6) + e7) + e8) + e9) + e10) + t11 =~= (((((((((e0 + e1) + e2) + e3) + e4) + e5) + e6) + e7) + e8) + e9) + t10);
        assert((((((((((((e0 + e1) + e2) + e3) + e4) + e5) + e6) + e7) + e8) + e9) + e10) + e11) + t12 =~= ((((((((((e0 + e1) + e2) + e3) + e4) + e5) + e6) + e7) + e8) + e9) + e10) + t11);
        assert(t0.skip(e0.len() as int) =~= t1);
        lemma_skip_skip(t0, (e0.len()) as int, e1.len() as int);
        assert(t1.skip(e1.len() as int) =~= t2);
        lemma_skip_skip(t0, (e0.len() + e1.len()) as int, e2.len() as int);
        assert(t2.skip(e2.len() as int) =~= t3);
        lemma_skip_skip(t0, (e0.len() + e1.len() + e2.len()) as int, e3.len() as int);
        assert(t3.skip(e3.len() as int) =~= t4);
        lemma_skip_skip(t0, (e0.len() + e1.len() + e2.len() + e3.len()) as int, e4.len() as int);
        assert(t4.skip(e4.len() as int) =~= t5);
        lemma_skip_skip(t0, (e0.len() + e1.len() + e2.len() + e3.len() + e4.len()) as int, e5.len() as int);
        assert(t5.skip(e5.len() as int) =~= t6);
        lemma_skip_skip(t0, (e0.len() + e1.len() + e2.len() + e3.len() + e4.len() + e5.len()) as int, e6.len() as int);
        assert(t6.skip(e6.len() as int) =~= t7);
        lemma_skip_skip(t0, (e0.len() + e1.len() + e2.len() + e3.len() + e4.len() + e5.len() + e6.len()) as int, e7.len() as int);
        assert(t7.skip(e7.len() as int) =~= t8);
        lemma_skip_skip(t0, (e0.len() + e1.len() + e2.len() + e3.len() + e4.len() + e5.len() + e6.len() + e7.len()) as int, e8.len() as int);
        assert(t8.skip(e8.len() as int) =~= t9);
        lemma_skip_skip(t0, (e0.len() + e1.len() + e2.len() + e3.len() + e4.len() + e5.len() + e6.len() + e7.len() + e8.len()) as int, e9.len() as int);
        assert(t9.skip(e9.len() as int) =~= t10);
        lemma_skip_skip(t0, (e0.len() + e1.len() + e2.len() + e3.len() + e4.len() + e5.len() + e6.len() + e7.len() + e8.len() + e9.len()) as int, e10.len() as int);
        assert(t10.skip(e10.len() as int) =~= t11);
    }
}

} // verus!
