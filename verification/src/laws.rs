//! Laws that tie the writer to the reader and encoding to decoding.
use vstd::prelude::*;

verus! {

use vstd::arithmetic::power2::pow2;
use crate::bits::{bits_of, value_of, byte_bits, lemma_bits_of_len, lemma_value_of_bits_of};
use crate::codec::RoundTrip;
use crate::dec::BitReader;
use crate::enc::BitWriter;
use crate::error::CodecError;

/// Reading `count` bits where `write_bits` put the low `count` bits of `v`
/// gives back those bits, whatever follows them, and leaves what follows.
pub proof fn lemma_read_bits_after_write_bits(v: nat, count: nat, rest: Seq<bool>)
    ensures
        count <= (bits_of(v, count) + rest).len(),
        value_of((bits_of(v, count) + rest).take(count as int)) == v % pow2(count),
        (bits_of(v, count) + rest).skip(count as int) == rest,
{
    lemma_bits_of_len(v, count);
    lemma_value_of_bits_of(v, count);
    assert((bits_of(v, count) + rest).take(count as int) =~= bits_of(v, count));
    assert((bits_of(v, count) + rest).skip(count as int) =~= rest);
}

/// A writer that stands on a byte boundary, as after `align` or `flush`,
/// holds every bit written in its bytes; a fresh reader over those bytes
/// has exactly those bits to read.
pub proof fn lemma_reader_over_flushed_writer(w: &BitWriter, r: &BitReader)
    requires
        w.pending().len() == 0,
        r.pending().len() == 0,
        r.rest() == w.bytes(),
    ensures
        byte_bits(w.bytes()) == w.bits(),
        r.remaining() == w.bits(),
{
    assert(w.bits() =~= byte_bits(w.bytes()));
    assert(r.remaining() =~= byte_bits(r.rest()));
}

/// Two values written one after the other are read back one after the
/// other: the first read stops exactly where the second value begins.
pub proof fn lemma_decode_in_sequence<A: RoundTrip, B: RoundTrip>(a: &A, b: &B, rest: Seq<bool>)
    requires
        A::spec_round_trips(a.model()),
        B::spec_round_trips(b.model()),
    ensures
        A::spec_encode(a.model()) is Ok,
        B::spec_encode(b.model()) is Ok,
        ({
            let ea = A::spec_encode(a.model())->Ok_0;
            let eb = B::spec_encode(b.model())->Ok_0;
            let stream = ea + eb + rest;
            &&& A::spec_decode(stream) == Ok::<(A::Model, nat), CodecError>((a.model(), ea.len()))
            &&& B::spec_decode(stream.skip(ea.len() as int)) == Ok::<(B::Model, nat), CodecError>(
                (b.model(), eb.len()),
            )
        }),
{
    let ea = A::spec_encode(a.model())->Ok_0;
    A::lemma_round_trip(a, B::spec_encode(b.model())->Ok_0 + rest);
    B::lemma_round_trip(b, rest);
    let eb = B::spec_encode(b.model())->Ok_0;
    assert(ea + eb + rest =~= ea + (eb + rest));
    assert((ea + (eb + rest)).skip(ea.len() as int) =~= eb + rest);
}

/// Padding after an encoded value, such as the zeros `flush` adds, does
/// not change what is read back.
pub proof fn lemma_padding_is_ignored<T: RoundTrip>(x: &T, pad: Seq<bool>)
    requires
        T::spec_round_trips(x.model()),
    ensures
        T::spec_encode(x.model()) is Ok,
        T::spec_decode(T::spec_encode(x.model())->Ok_0 + pad) == T::spec_decode(
            T::spec_encode(x.model())->Ok_0,
        ),
{
    T::lemma_round_trip(x, pad);
    T::lemma_round_trip(x, Seq::empty());
    let e = T::spec_encode(x.model())->Ok_0;
    assert(e + Seq::<bool>::empty() =~= e);
}

/// The bits of bit fields written one after another with `write_bits`:
/// each pair is a value and the width it is written with.
pub open spec fn fields_bits(fields: Seq<(nat, nat)>) -> Seq<bool>
    decreases fields.len(),
{
    if fields.len() == 0 {
        Seq::empty()
    } else {
        bits_of(fields[0].0, fields[0].1) + fields_bits(fields.drop_first())
    }
}

/// Where field `i` starts: the widths of the fields before it.
pub open spec fn field_offset(fields: Seq<(nat, nat)>, i: int) -> nat
    decreases i,
{
    if i <= 0 || fields.len() == 0 {
        0
    } else {
        fields[0].1 + field_offset(fields.drop_first(), i - 1)
    }
}

/// Bit fields written one after another, whatever follows them, are read
/// back with the same widths in the same order: field `i` starts after the
/// widths of the fields before it, and reading its width there gives its
/// value's low bits, across byte boundaries or not.
pub proof fn lemma_fields_read_back(fields: Seq<(nat, nat)>, rest: Seq<bool>, i: int)
    requires
        0 <= i < fields.len(),
    ensures
        field_offset(fields, i) + fields[i].1 <= (fields_bits(fields) + rest).len(),
        value_of((fields_bits(fields) + rest).skip(field_offset(fields, i) as int).take(fields[i].1 as int))
            == fields[i].0 % pow2(fields[i].1),
    decreases i,
{
    let head = bits_of(fields[0].0, fields[0].1);
    let tail = fields.drop_first();
    let s = fields_bits(fields) + rest;
    lemma_bits_of_len(fields[0].0, fields[0].1);
    assert(s =~= head + (fields_bits(tail) + rest));
    if i == 0 {
        lemma_read_bits_after_write_bits(fields[0].0, fields[0].1, fields_bits(tail) + rest);
        assert(s.skip(0) =~= s);
    } else {
        lemma_fields_read_back(tail, rest, i - 1);
        assert(tail[i - 1] == fields[i]);
        let off = field_offset(tail, i - 1);
        assert(s.skip(head.len() as int) =~= fields_bits(tail) + rest);
        assert(s.skip((head.len() + off) as int) =~= (fields_bits(tail) + rest).skip(off as int));
    }
}

} // verus!
