//! Codecs for sequences: a `Vec` or slice writes its length as a `VarLen`
//! and then its items; an array writes its items alone.
use vstd::prelude::*;

verus! {

use crate::codec::{Modeled, RoundTrip};
use crate::dec::{BitDecode, BitReader, consumed_from, lemma_consumed_skip};
use crate::enc::{BitEncode, BitWriter};
use crate::error::CodecError;
use crate::var_len::{VarLen, varlen_bits};

/// The models of a sequence of values.
pub open spec fn models<T: Modeled>(s: Seq<T>) -> Seq<T::Model> {
    s.map_values(|x: T| x.model())
}

/// The items' encodings one after another; the first item that cannot be
/// encoded stops it.
pub open spec fn encode_all<T: BitEncode>(ms: Seq<T::Model>) -> Result<Seq<bool>, CodecError>
    decreases ms.len(),
{
    if ms.len() == 0 {
        Ok(Seq::empty())
    } else {
        match T::spec_encode(ms[0]) {
            Ok(a) => match encode_all::<T>(ms.drop_first()) {
                Ok(b) => Ok(a + b),
                Err(e) => Err(e),
            },
            Err(e) => Err(e),
        }
    }
}

/// Decoding `n` items one after another: their models and the bits they take.
pub open spec fn decode_n<T: BitDecode>(bits: Seq<bool>, n: nat) -> Result<(Seq<T::Model>, nat), CodecError>
    decreases n,
{
    if n == 0 {
        Ok((Seq::empty(), 0))
    } else {
        match T::spec_decode(bits) {
            Ok((m, k)) => match decode_n::<T>(bits.skip(k as int), (n - 1) as nat) {
                Ok((ms, k2)) => Ok((seq![m] + ms, k + k2)),
                Err(e) => Err(e),
            },
            Err(e) => Err(e),
        }
    }
}

/// Decoding `n` items where one of them fails: the bits taken by the items
/// before the failing one, which is where the failing item starts.
pub open spec fn decode_n_stop<T: BitDecode>(bits: Seq<bool>, n: nat) -> nat
    decreases n,
{
    if n == 0 {
        0
    } else {
        match T::spec_decode(bits) {
            Ok((m, k)) => k + decode_n_stop::<T>(bits.skip(k as int), (n - 1) as nat),
            Err(e) => 0,
        }
    }
}

/// The length header: the length cut to its low 32 bits.
pub open spec fn len_header(len: nat) -> nat {
    (len as u32) as nat
}

/// Encoding one more item extends the encoding of the items before it.
pub proof fn lemma_encode_all_push<T: BitEncode>(ms: Seq<T::Model>, m: T::Model)
    ensures
        encode_all::<T>(ms.push(m)) == match encode_all::<T>(ms) {
            Ok(a) => match T::spec_encode(m) {
                Ok(b) => Ok(a + b),
                Err(e) => Err(e),
            },
            Err(e) => Err(e),
        },
    decreases ms.len(),
{
    if ms.len() == 0 {
        assert(ms.push(m).drop_first() =~= Seq::<T::Model>::empty());
        assert(ms.push(m)[0] == m);
        assert(encode_all::<T>(Seq::<T::Model>::empty()) == Ok::<Seq<bool>, CodecError>(Seq::empty()));
        assert(ms =~= Seq::<T::Model>::empty());
        if let Ok(b) = T::spec_encode(m) {
            assert(b + Seq::<bool>::empty() =~= Seq::<bool>::empty() + b);
        }
    } else {
        assert(ms.push(m).drop_first() =~= ms.drop_first().push(m));
        assert(ms.push(m)[0] == ms[0]);
        lemma_encode_all_push::<T>(ms.drop_first(), m);
        if let (Ok(a0), Ok(rest), Ok(b)) = (
            T::spec_encode(ms[0]),
            encode_all::<T>(ms.drop_first()),
            T::spec_encode(m),
        ) {
            assert(a0 + (rest + b) =~= (a0 + rest) + b);
        }
    }
}

/// The encoding of a sequence whose items are all encoded is a string of their encodings.
pub proof fn lemma_decode_n_encode_all<T: RoundTrip>(xs: Seq<T>, rest: Seq<bool>)
    requires
        forall|i: int| 0 <= i < xs.len() ==> T::spec_round_trips(#[trigger] xs[i].model()),
    ensures
        encode_all::<T>(models(xs)) is Ok,
        decode_n::<T>(encode_all::<T>(models(xs))->Ok_0 + rest, xs.len()) == Ok::<(Seq<T::Model>, nat), CodecError>(
            (models(xs), encode_all::<T>(models(xs))->Ok_0.len()),
        ),
    decreases xs.len(),
{
    let ms = models(xs);
    if xs.len() == 0 {
        assert(ms =~= Seq::<T::Model>::empty());
        assert(Seq::<bool>::empty() + rest =~= rest);
    } else {
        let tail = xs.drop_first();
        assert(models(tail) =~= ms.drop_first());
        assert forall|i: int| 0 <= i < tail.len() implies T::spec_round_trips(#[trigger] tail[i].model()) by {
            assert(tail[i] == xs[i + 1]);
        }
        lemma_decode_n_encode_all::<T>(tail, rest);
        T::lemma_round_trip(&xs[0], encode_all::<T>(models(tail))->Ok_0 + rest);
        let a = T::spec_encode(xs[0].model())->Ok_0;
        let b = encode_all::<T>(models(tail))->Ok_0;
        assert(ms[0] == xs[0].model());
        assert(a + (b + rest) =~= (a + b) + rest);
        assert((a + b + rest).skip(a.len() as int) =~= b + rest);
        assert(seq![ms[0]] + models(tail) =~= ms);
    }
}

/// Once an item cannot be encoded, neither can the sequence.
pub proof fn lemma_encode_all_error<T: BitEncode>(ms: Seq<T::Model>, i: int)
    requires
        0 <= i < ms.len(),
        encode_all::<T>(ms.take(i)) is Ok,
        T::spec_encode(ms[i]) is Err,
    ensures
        encode_all::<T>(ms) == Err::<Seq<bool>, CodecError>(T::spec_encode(ms[i])->Err_0),
    decreases i,
{
    if i > 0 {
        assert(ms.take(i)[0] == ms[0]);
        assert(ms.take(i).drop_first() =~= ms.drop_first().take(i - 1));
        lemma_encode_all_error::<T>(ms.drop_first(), i - 1);
    }
}

/// Writes the items of `items` one after another.
pub fn encode_items<T: BitEncode>(items: &[T], w: &mut BitWriter) -> (res: Result<(), CodecError>)
    ensures
        match encode_all::<T>(models(items@)) {
            Ok(b) => res is Ok && final(w).bits() == old(w).bits() + b,
            Err(e) => res == Err::<(), CodecError>(e) && old(w).bits().is_prefix_of(final(w).bits()),
        },
{
    let ghost ms = models(items@);
    let ghost start = w.bits();
    let mut i: usize = 0;
    proof {
        assert(ms.take(0) =~= Seq::<T::Model>::empty());
        assert(start + Seq::<bool>::empty() =~= start);
    }
    while i < items.len()
        invariant
            i <= items@.len(),
            ms == models(items@),
            start == old(w).bits(),
            encode_all::<T>(ms.take(i as int)) is Ok,
            w.bits() == start + encode_all::<T>(ms.take(i as int))->Ok_0,
        decreases items@.len() - i,
    {
        let ghost before = w.bits();
        let r = items[i].encode(w);
        proof {
            assert(ms.take(i + 1) =~= ms.take(i as int).push(ms[i as int]));
            lemma_encode_all_push::<T>(ms.take(i as int), ms[i as int]);
        }
        match r {
            Ok(()) => {
                proof {
                    let a = encode_all::<T>(ms.take(i as int))->Ok_0;
                    let b = T::spec_encode(ms[i as int])->Ok_0;
                    assert((start + a) + b =~= start + (a + b));
                }
            },
            Err(e) => {
                proof {
                    lemma_encode_all_error::<T>(ms, i as int);
                    assert(start.is_prefix_of(before));
                    assert(start.is_prefix_of(w.bits()));
                }
                return Err(e);
            },
        }
        i = i + 1;
    }
    proof {
        assert(ms.take(items@.len() as int) =~= ms);
    }
    Ok(())
}

/// Reads `n` items one after another.
pub fn decode_items<T: BitDecode>(r: &mut BitReader, n: usize) -> (res: Result<Vec<T>, CodecError>)
    ensures
        match decode_n::<T>(old(r).remaining(), n as nat) {
            Ok((ms, k)) => {
                &&& k <= old(r).remaining().len()
                &&& res matches Ok(v) && models(v@) == ms
                &&& final(r).remaining() == old(r).remaining().skip(k as int)
            },
            Err(e) => {
                &&& res matches Err(e2) && e2 == e
                &&& consumed_from(old(r).remaining(), final(r).remaining())
                &&& decode_n_stop::<T>(old(r).remaining(), n as nat) <= old(r).remaining().len()
                &&& consumed_from(
                    old(r).remaining().skip(decode_n_stop::<T>(old(r).remaining(), n as nat) as int),
                    final(r).remaining(),
                )
            },
        },
{
    let ghost start = r.remaining();
    let mut out: Vec<T> = Vec::new();
    let mut i: usize = 0;
    proof {
        assert(models(out@) =~= Seq::<T::Model>::empty());
        lemma_consumed_skip(start, 0);
        assert(start.skip(0) =~= start);
        match decode_n::<T>(start, n as nat) {
            Ok((ms, k)) => {
                assert(Seq::<T::Model>::empty() + ms =~= ms);
            },
            Err(e) => {},
        }
    }
    while i < n
        invariant
            i <= n,
            start == old(r).remaining(),
            consumed_from(start, r.remaining()),
            decode_n_stop::<T>(start, n as nat) == (start.len() - r.remaining().len()) + decode_n_stop::<T>(
                r.remaining(),
                (n - i) as nat,
            ),
            decode_n::<T>(start, n as nat) == match decode_n::<T>(r.remaining(), (n - i) as nat) {
                Ok((ms, k)) => Ok::<(Seq<T::Model>, nat), CodecError>(
                    (models(out@) + ms, ((start.len() - r.remaining().len()) + k) as nat),
                ),
                Err(e) => Err(e),
            },
        decreases n - i,
    {
        let ghost here = r.remaining();
        match T::decode(r) {
            Ok(x) => {
                proof {
                    let k = T::spec_decode(here)->Ok_0.1;
                    assert(r.remaining() =~= start.skip(start.len() - r.remaining().len()));
                    assert(here.skip(k as int) == r.remaining());
                    assert(models(out@.push(x)) =~= models(out@).push(x.model()));
                    match decode_n::<T>(r.remaining(), (n - i - 1) as nat) {
                        Ok((ms, k2)) => {
                            assert(models(out@) + (seq![x.model()] + ms) =~= models(out@).push(x.model()) + ms);
                        },
                        Err(e) => {},
                    }
                }
                out.push(x);
            },
            Err(e) => {
                proof {
                    assert(r.remaining() =~= start.skip(start.len() - r.remaining().len()));
                    assert(here =~= start.skip(start.len() - here.len()));
                }
                return Err(e);
            },
        }
        i = i + 1;
    }
    proof {
        assert(models(out@) + Seq::<T::Model>::empty() =~= models(out@));
        assert(r.remaining() =~= start.skip(start.len() - r.remaining().len()));
    }
    Ok(out)
}

/// The bits of a length-prefixed sequence: the length cut to 32 bits as a
/// `VarLen`, then the items.
pub open spec fn encode_counted<T: BitEncode>(ms: Seq<T::Model>) -> Result<Seq<bool>, CodecError> {
    match encode_all::<T>(ms) {
        Ok(b) => Ok(varlen_bits(len_header(ms.len())) + b),
        Err(e) => Err(e),
    }
}

/// Reading a length-prefixed sequence.
pub open spec fn decode_counted<T: BitDecode>(bits: Seq<bool>) -> Result<(Seq<T::Model>, nat), CodecError> {
    match <VarLen as BitDecode>::spec_decode(bits) {
        Ok((len, k)) => match decode_n::<T>(bits.skip(k as int), len as nat) {
            Ok((ms, k2)) => Ok((ms, k + k2)),
            Err(e) => Err(e),
        },
        Err(e) => Err(e),
    }
}

/// A length-prefixed sequence of values that round-trip decodes back to itself.
pub proof fn lemma_counted_round_trip<T: RoundTrip>(xs: Seq<T>, rest: Seq<bool>)
    requires
        xs.len() < 0x1_0000_0000,
        forall|i: int| 0 <= i < xs.len() ==> T::spec_round_trips(#[trigger] xs[i].model()),
    ensures
        encode_counted::<T>(models(xs)) is Ok,
        decode_counted::<T>(encode_counted::<T>(models(xs))->Ok_0 + rest) == Ok::<(Seq<T::Model>, nat), CodecError>(
            (models(xs), encode_counted::<T>(models(xs))->Ok_0.len()),
        ),
{
    let ms = models(xs);
    lemma_decode_n_encode_all::<T>(xs, rest);
    let items = encode_all::<T>(ms)->Ok_0;
    let header = varlen_bits(len_header(ms.len()));
    assert(len_header(ms.len()) == ms.len());
    vstd::arithmetic::power2::lemma2_to64();
    crate::var_len::lemma_varlen_parse_bits(ms.len(), 0, items + rest);
    crate::var_len::lemma_varlen_parse_bound(header + (items + rest), 0);
    assert(header + items + rest =~= header + (items + rest));
    assert((header + (items + rest)).skip(header.len() as int) =~= items + rest);
}

impl<T: Modeled> Modeled for Vec<T> {
    type Model = Seq<T::Model>;

    open spec fn model(&self) -> Seq<T::Model> {
        models(self@)
    }
}

impl<T: Modeled> Modeled for [T] {
    type Model = Seq<T::Model>;

    open spec fn model(&self) -> Seq<T::Model> {
        models(self@)
    }
}

impl<T: BitEncode> BitEncode for [T] {
    open spec fn spec_encode(m: Seq<T::Model>) -> Result<Seq<bool>, CodecError> {
        encode_counted::<T>(m)
    }

    fn encode(&self, w: &mut BitWriter) -> (res: Result<(), CodecError>) {
        let ghost start = w.bits();
        VarLen(self.len() as u32).encode(w)?;
        let ghost mid = w.bits();
        let res = encode_items(self, w);
        proof {
            let ms = models(self@);
            assert(ms.len() == self@.len());
            match encode_all::<T>(ms) {
                Ok(b) => {
                    assert(mid + b =~= start + (varlen_bits(len_header(ms.len())) + b));
                },
                Err(e) => {
                    assert(start.is_prefix_of(mid));
                },
            }
        }
        res
    }
}

impl<T: BitEncode> BitEncode for Vec<T> {
    open spec fn spec_encode(m: Seq<T::Model>) -> Result<Seq<bool>, CodecError> {
        encode_counted::<T>(m)
    }

    fn encode(&self, w: &mut BitWriter) -> (res: Result<(), CodecError>) {
        self.as_slice().encode(w)
    }
}

impl<T: BitDecode> BitDecode for Vec<T> {
    open spec fn spec_decode(bits: Seq<bool>) -> Result<(Seq<T::Model>, nat), CodecError> {
        decode_counted::<T>(bits)
    }

    /// When an item fails, reading stops in it: no later item is read.
    fn decode(r: &mut BitReader) -> (res: Result<Self, CodecError>)
        ensures
            <VarLen as BitDecode>::spec_decode(old(r).remaining()) matches Ok((l, k)) ==> ({
                let items = old(r).remaining().skip(k as int);
                decode_n::<T>(items, l as nat) is Err ==> {
                    &&& decode_n_stop::<T>(items, l as nat) <= items.len()
                    &&& consumed_from(items.skip(decode_n_stop::<T>(items, l as nat) as int), final(r).remaining())
                }
            }),
    {
        let ghost start = r.remaining();
        let len = VarLen::decode(r)?.0 as usize;
        let ghost mid = r.remaining();
        let res = decode_items(r, len);
        proof {
            assert(start.skip((start.len() - mid.len()) as int) == mid);
            match <VarLen as BitDecode>::spec_decode(start) {
                Ok((l, k)) => {
                    assert(k == start.len() - mid.len());
                    assert(mid.skip(0) =~= mid);
                    match decode_n::<T>(mid, len as nat) {
                        Ok((ms, k2)) => {
                            assert(mid.skip(k2 as int) =~= start.skip((k + k2) as int));
                        },
                        Err(e) => {
                            assert(r.remaining() =~= start.skip(start.len() - r.remaining().len()));
                        },
                    }
                },
                Err(e) => {},
            }
        }
        res
    }
}

impl<T: RoundTrip> RoundTrip for Vec<T> {
    /// Fewer than `2^32` items, each of which round-trips.
    open spec fn spec_round_trips(m: Seq<T::Model>) -> bool {
        &&& m.len() < 0x1_0000_0000
        &&& forall|i: int| 0 <= i < m.len() ==> T::spec_round_trips(#[trigger] m[i])
    }

    proof fn lemma_round_trip(x: &Self, rest: Seq<bool>) {
        assert forall|i: int| 0 <= i < x@.len() implies T::spec_round_trips(#[trigger] x@[i].model()) by {
            assert(x.model()[i] == x@[i].model());
        }
        lemma_counted_round_trip::<T>(x@, rest);
    }
}

impl<T: Modeled, const N: usize> Modeled for [T; N] {
    type Model = Seq<T::Model>;

    open spec fn model(&self) -> Seq<T::Model> {
        models(self@)
    }
}

impl<T: BitEncode, const N: usize> BitEncode for [T; N] {
    /// The items alone: the length is part of the type.
    open spec fn spec_encode(m: Seq<T::Model>) -> Result<Seq<bool>, CodecError> {
        encode_all::<T>(m)
    }

    fn encode(&self, w: &mut BitWriter) -> (res: Result<(), CodecError>) {
        encode_items(self.as_slice(), w)
    }
}

/// `<[T; N]>::try_from(v)`: the items of `v` as an array, when there are
/// exactly `N` of them.
#[verifier::external_body]
pub(crate) fn vec_into_array<T, const N: usize>(v: Vec<T>) -> (r: Option<[T; N]>)
    ensures
        r is Some <==> v@.len() == N,
        r matches Some(a) ==> a@ == v@,
{
    v.try_into().ok()
}

impl<T: BitDecode, const N: usize> BitDecode for [T; N] {
    open spec fn spec_decode(bits: Seq<bool>) -> Result<(Seq<T::Model>, nat), CodecError> {
        decode_n::<T>(bits, N as nat)
    }

    /// On an error, reading stops in the item that failed: no later item is read.
    fn decode(r: &mut BitReader) -> (res: Result<Self, CodecError>)
        ensures
            Self::spec_decode(old(r).remaining()) is Err ==> {
                &&& decode_n_stop::<T>(old(r).remaining(), N as nat) <= old(r).remaining().len()
                &&& consumed_from(
                    old(r).remaining().skip(decode_n_stop::<T>(old(r).remaining(), N as nat) as int),
                    final(r).remaining(),
                )
            },
    {
        let items = decode_items::<T>(r, N)?;
        proof {
            lemma_decode_n_len::<T>(old(r).remaining(), N as nat);
        }
        match vec_into_array::<T, N>(items) {
            Some(a) => Ok(a),
            None => Err(CodecError::UnexpectedEof),
        }
    }
}

/// Decoding `n` items yields `n` models.
pub proof fn lemma_decode_n_len<T: BitDecode>(bits: Seq<bool>, n: nat)
    ensures
        decode_n::<T>(bits, n) matches Ok((ms, k)) ==> ms.len() == n,
    decreases n,
{
    if n > 0 {
        if let Ok((m, k)) = T::spec_decode(bits) {
            lemma_decode_n_len::<T>(bits.skip(k as int), (n - 1) as nat);
        }
    }
}

impl<T: RoundTrip, const N: usize> RoundTrip for [T; N] {
    /// Each item round-trips.
    open spec fn spec_round_trips(m: Seq<T::Model>) -> bool {
        &&& m.len() == N
        &&& forall|i: int| 0 <= i < m.len() ==> T::spec_round_trips(#[trigger] m[i])
    }

    proof fn lemma_round_trip(x: &Self, rest: Seq<bool>) {
        assert forall|i: int| 0 <= i < x@.len() implies T::spec_round_trips(#[trigger] x@[i].model()) by {
            assert(x.model()[i] == x@[i].model());
        }
        lemma_decode_n_encode_all::<T>(x@, rest);
    }
}

} // verus!
