//! Laws of the wire format: for each kind of value, which bits stand where
//! in its encoding and in what order its parts are read back, stated over
//! numbers, bytes and the encodings of its parts; and how each header type
//! holds a length.
use vstd::prelude::*;

verus! {

use std::borrow::Cow;
use std::collections::{BTreeMap, BTreeSet, HashMap, HashSet, VecDeque};
use std::marker::PhantomData;
use std::num::Wrapping;
use std::ops::Range;
use std::rc::Rc;
use std::sync::Arc;
use std::time::Duration;
use vstd::utf8::encode_utf8;
use crate::bits::{bits_of, value_of, byte_bits, lemma_bits_of_len, lemma_value_of_bits_of, lemma_byte_bits_len, lemma_byte_bits_first, lemma_value_of_bound};
use crate::codec::Modeled;
use crate::counted::{CountedSeq, LenHeader};
use crate::keyed::{IntKey, increasing, sorted_keys, lemma_sorted_keys_exist};
use crate::num::{NonZero, ZeroTest};
use crate::ranges::RangeInclusive;
use crate::dec::BitDecode;
use crate::enc::BitEncode;
use crate::error::CodecError;
use crate::le::{bytes_of_bits, le_seq, le_bits, lemma_le_seq_len};
use crate::net::{Ipv4Addr, Ipv6Addr, SocketAddr, SocketAddrV4, SocketAddrV6};
use crate::seqs::{encode_all, len_header};
use crate::var_len::{VarLen, varlen_bits};
use vstd::arithmetic::power2::{pow2, lemma2_to64, lemma_pow2_adds, lemma_pow2_pos};
use vstd::arithmetic::div_mod::lemma_div_denominator;

/// The number of bits item `m` is written in.
pub open spec fn enc_len<T: BitEncode>(m: T::Model) -> int {
    T::spec_encode(m)->Ok_0.len() as int
}

/// Where item `i` of a run of items starts: the bits of the items before it.
pub open spec fn item_offset<T: BitEncode>(ms: Seq<T::Model>, i: int) -> int
    decreases i,
{
    if i <= 0 || ms.len() == 0 {
        0
    } else {
        enc_len::<T>(ms[0]) + item_offset::<T>(ms.drop_first(), i - 1)
    }
}

/// Items written one after another: item `i` stands at the offset of the
/// items before it, in the order of the sequence, and the run is exactly as
/// long as its items.
pub proof fn lemma_items_in_order<T: BitEncode>(ms: Seq<T::Model>, i: int)
    requires
        forall|j: int| 0 <= j < ms.len() ==> (#[trigger] T::spec_encode(ms[j])) is Ok,
        0 <= i <= ms.len(),
    ensures
        encode_all::<T>(ms) is Ok,
        0 <= item_offset::<T>(ms, i),
        encode_all::<T>(ms)->Ok_0.len() == item_offset::<T>(ms, ms.len() as int),
        i < ms.len() ==> {
            &&& item_offset::<T>(ms, i) + enc_len::<T>(ms[i]) <= encode_all::<T>(ms)->Ok_0.len()
            &&& encode_all::<T>(ms)->Ok_0.subrange(
                item_offset::<T>(ms, i),
                item_offset::<T>(ms, i) + enc_len::<T>(ms[i]),
            ) == T::spec_encode(ms[i])->Ok_0
        },
    decreases ms.len(),
{
    if ms.len() > 0 {
        let tail = ms.drop_first();
        assert forall|j: int| 0 <= j < tail.len() implies (#[trigger] T::spec_encode(tail[j])) is Ok by {
            assert(tail[j] == ms[j + 1]);
            assert(T::spec_encode(ms[j + 1]) is Ok);
        }
        assert(T::spec_encode(ms[0]) is Ok);
        let a = T::spec_encode(ms[0])->Ok_0;
        if i == 0 {
            lemma_items_in_order::<T>(tail, 0);
            assert((a + encode_all::<T>(tail)->Ok_0).subrange(0, a.len() as int) =~= a);
        } else {
            lemma_items_in_order::<T>(tail, i - 1);
            if i < ms.len() {
                assert(tail[i - 1] == ms[i]);
                let b = encode_all::<T>(tail)->Ok_0;
                let o = item_offset::<T>(tail, i - 1);
                assert((a + b).subrange(a.len() + o, a.len() + o + enc_len::<T>(ms[i])) =~= b.subrange(
                    o,
                    o + enc_len::<T>(ms[i]),
                ));
            }
        }
        lemma_items_in_order::<T>(tail, tail.len() as int);
    }
}

/// A `Vec` is its length as a `VarLen`, then its items front to back, item
/// `i` after the items before it.
pub proof fn lemma_vec_layout<T: BitEncode>(ms: Seq<T::Model>, i: int)
    requires
        forall|j: int| 0 <= j < ms.len() ==> (#[trigger] T::spec_encode(ms[j])) is Ok,
        0 <= i < ms.len(),
    ensures
        <Vec<T> as BitEncode>::spec_encode(ms) is Ok,
        ({
            let b = <Vec<T> as BitEncode>::spec_encode(ms)->Ok_0;
            let h = varlen_bits(len_header(ms.len()));
            &&& b.len() == h.len() + item_offset::<T>(ms, ms.len() as int)
            &&& b.take(h.len() as int) == h
            &&& b.subrange(h.len() + item_offset::<T>(ms, i), h.len() + item_offset::<T>(ms, i) + enc_len::<T>(ms[i]))
                == T::spec_encode(ms[i])->Ok_0
        }),
{
    lemma_items_in_order::<T>(ms, i);
    let h = varlen_bits(len_header(ms.len()));
    let e = encode_all::<T>(ms)->Ok_0;
    let o = item_offset::<T>(ms, i);
    assert((h + e).take(h.len() as int) =~= h);
    assert((h + e).subrange(h.len() + o, h.len() + o + enc_len::<T>(ms[i])) =~= e.subrange(o, o + enc_len::<T>(ms[i])));
}

/// An array is its items front to back with no length, item `i` after the
/// items before it.
pub proof fn lemma_array_layout<T: BitEncode, const N: usize>(ms: Seq<T::Model>, i: int)
    requires
        forall|j: int| 0 <= j < ms.len() ==> (#[trigger] T::spec_encode(ms[j])) is Ok,
        0 <= i < ms.len(),
    ensures
        <[T; N] as BitEncode>::spec_encode(ms) is Ok,
        <[T; N] as BitEncode>::spec_encode(ms)->Ok_0.len() == item_offset::<T>(ms, ms.len() as int),
        <[T; N] as BitEncode>::spec_encode(ms)->Ok_0.subrange(
            item_offset::<T>(ms, i),
            item_offset::<T>(ms, i) + enc_len::<T>(ms[i]),
        ) == T::spec_encode(ms[i])->Ok_0,
{
    lemma_items_in_order::<T>(ms, i);
}

/// A `VecDeque` is written and read exactly as a `Vec` with the same items in
/// the same order, front to back.
pub proof fn lemma_deque_as_vec<T: BitEncode + BitDecode>(ms: Seq<T::Model>, bits: Seq<bool>)
    ensures
        <VecDeque<T> as BitEncode>::spec_encode(ms) == <Vec<T> as BitEncode>::spec_encode(ms),
        <VecDeque<T> as BitDecode>::spec_decode(bits) == <Vec<T> as BitDecode>::spec_decode(bits),
{
}

/// A `Range` is its start, then its end.
pub proof fn lemma_range_layout<T: BitEncode>(s: T::Model, e: T::Model)
    requires
        T::spec_encode(s) is Ok,
        T::spec_encode(e) is Ok,
    ensures
        <Range<T> as BitEncode>::spec_encode((s, e)) == Ok::<Seq<bool>, CodecError>(
            T::spec_encode(s)->Ok_0 + T::spec_encode(e)->Ok_0,
        ),
{
}

/// Reading a `Range` reads its start first, then its end right after it.
pub proof fn lemma_range_read_order<T: BitDecode>(bits: Seq<bool>)
    requires
        T::spec_decode(bits) is Ok,
        T::spec_decode(bits.skip(T::spec_decode(bits)->Ok_0.1 as int)) is Ok,
    ensures
        ({
            let (s, k0) = T::spec_decode(bits)->Ok_0;
            let (e, k1) = T::spec_decode(bits.skip(k0 as int))->Ok_0;
            <Range<T> as BitDecode>::spec_decode(bits) == Ok::<((T::Model, T::Model), nat), CodecError>(
                ((s, e), k0 + k1),
            )
        }),
{
}

/// Byte `i` of a byte string stands at bits `8i .. 8i + 8` of its bits.
pub proof fn lemma_byte_at(o: Seq<u8>, i: int)
    requires
        0 <= i < o.len(),
    ensures
        byte_bits(o).len() == 8 * o.len(),
        byte_bits(o).subrange(8 * i, 8 * i + 8) == bits_of(o[i] as nat, 8),
        value_of(byte_bits(o).subrange(8 * i, 8 * i + 8)) == o[i],
    decreases i,
{
    lemma_byte_bits_len(o);
    lemma_byte_bits_first(o);
    lemma_bits_of_len(o[0] as nat, 8);
    let t = o.drop_first();
    lemma_byte_bits_len(t);
    if i == 0 {
        assert(byte_bits(o).subrange(0, 8) =~= bits_of(o[0] as nat, 8));
    } else {
        lemma_byte_at(t, i - 1);
        assert(t[i - 1] == o[i]);
        assert(byte_bits(o).subrange(8 * i, 8 * i + 8) =~= byte_bits(t).subrange(8 * (i - 1), 8 * (i - 1) + 8));
    }
    lemma_value_of_bits_of(o[i] as nat, 8);
    lemma2_to64();
    vstd::arithmetic::div_mod::lemma_small_mod(o[i] as nat, 256);
}

/// The bytes read from a bit string: byte `i` is the value of bits
/// `8i .. 8i + 8`.
pub proof fn lemma_bytes_read_in_order(bits: Seq<bool>, i: int)
    requires
        0 <= i,
        8 * i + 8 <= bits.len(),
    ensures
        i < bytes_of_bits(bits).len(),
        bytes_of_bits(bits)[i] as nat == value_of(bits.subrange(8 * i, 8 * i + 8)),
    decreases i,
{
    lemma_value_of_bound(bits.take(8));
    lemma2_to64();
    if i == 0 {
        assert(bits.take(8) =~= bits.subrange(0, 8));
    } else {
        lemma_bytes_read_in_order(bits.skip(8), i - 1);
        assert(bits.skip(8).subrange(8 * (i - 1), 8 * (i - 1) + 8) =~= bits.subrange(8 * i, 8 * i + 8));
    }
}

/// An IPv4 address is its four octets in order: octet `i` is bits
/// `8i .. 8i + 8`.
pub proof fn lemma_ipv4_layout(m: Seq<u8>, i: int)
    requires
        m.len() == 4,
        0 <= i < 4,
    ensures
        <Ipv4Addr as BitEncode>::spec_encode(m) is Ok,
        <Ipv4Addr as BitEncode>::spec_encode(m)->Ok_0.len() == 32,
        value_of(<Ipv4Addr as BitEncode>::spec_encode(m)->Ok_0.subrange(8 * i, 8 * i + 8)) == m[i],
{
    lemma_byte_at(m, i);
}

/// Reading an IPv4 address takes 32 bits and gives octet `i` from bits
/// `8i .. 8i + 8`.
pub proof fn lemma_ipv4_read_order(bits: Seq<bool>, i: int)
    requires
        bits.len() >= 32,
        0 <= i < 4,
    ensures
        <Ipv4Addr as BitDecode>::spec_decode(bits) matches Ok((o, k)) && k == 32 && o.len() == 4
            && o[i] as nat == value_of(bits.subrange(8 * i, 8 * i + 8)),
{
    lemma_octets_read(bits, 4, i);
}

/// An IPv6 address is its sixteen octets in order: octet `i` is bits
/// `8i .. 8i + 8`.
pub proof fn lemma_ipv6_layout(m: Seq<u8>, i: int)
    requires
        m.len() == 16,
        0 <= i < 16,
    ensures
        <Ipv6Addr as BitEncode>::spec_encode(m) is Ok,
        <Ipv6Addr as BitEncode>::spec_encode(m)->Ok_0.len() == 128,
        value_of(<Ipv6Addr as BitEncode>::spec_encode(m)->Ok_0.subrange(8 * i, 8 * i + 8)) == m[i],
{
    lemma_byte_at(m, i);
}

/// Reading an IPv6 address takes 128 bits and gives octet `i` from bits
/// `8i .. 8i + 8`.
pub proof fn lemma_ipv6_read_order(bits: Seq<bool>, i: int)
    requires
        bits.len() >= 128,
        0 <= i < 16,
    ensures
        <Ipv6Addr as BitDecode>::spec_decode(bits) matches Ok((o, k)) && k == 128 && o.len() == 16
            && o[i] as nat == value_of(bits.subrange(8 * i, 8 * i + 8)),
{
    lemma_octets_read(bits, 16, i);
}

/// Reading `n` octets takes `8n` bits, octet `i` from bits `8i .. 8i + 8`.
proof fn lemma_octets_read(bits: Seq<bool>, n: nat, i: int)
    requires
        bits.len() >= 8 * n,
        0 <= i < n,
    ensures
        crate::net::decode_octets(bits, n) matches Ok((o, k)) && k == 8 * n && o.len() == n
            && o[i] as nat == value_of(bits.subrange(8 * i, 8 * i + 8)),
{
    let t = bits.take(8 * n as int);
    crate::le::lemma_bytes_of_bits_len(t);
    lemma_bytes_read_in_order(t, i);
    assert(t.subrange(8 * i, 8 * i + 8) =~= bits.subrange(8 * i, 8 * i + 8));
}

/// Each header type holds exactly the lengths that fit its range, and keeps
/// such a length as it is; it gives back as a length exactly the values that
/// are not negative and fit `usize`.
pub proof fn lemma_headers_hold_what_fits(len: nat)
    ensures
        <u8 as LenHeader>::spec_from_len(len) is Some <==> len <= u8::MAX,
        <u8 as LenHeader>::spec_from_len(len) matches Some(h) ==> h as int == len,
        <u16 as LenHeader>::spec_from_len(len) is Some <==> len <= u16::MAX,
        <u16 as LenHeader>::spec_from_len(len) matches Some(h) ==> h as int == len,
        <u32 as LenHeader>::spec_from_len(len) is Some <==> len <= u32::MAX,
        <u32 as LenHeader>::spec_from_len(len) matches Some(h) ==> h as int == len,
        <u64 as LenHeader>::spec_from_len(len) is Some <==> len <= u64::MAX,
        <u64 as LenHeader>::spec_from_len(len) matches Some(h) ==> h as int == len,
        <u128 as LenHeader>::spec_from_len(len) is Some <==> len <= u128::MAX,
        <u128 as LenHeader>::spec_from_len(len) matches Some(h) ==> h as int == len,
        <usize as LenHeader>::spec_from_len(len) is Some <==> len <= usize::MAX,
        <usize as LenHeader>::spec_from_len(len) matches Some(h) ==> h as int == len,
        <i8 as LenHeader>::spec_from_len(len) is Some <==> len <= i8::MAX,
        <i8 as LenHeader>::spec_from_len(len) matches Some(h) ==> h as int == len,
        <i16 as LenHeader>::spec_from_len(len) is Some <==> len <= i16::MAX,
        <i16 as LenHeader>::spec_from_len(len) matches Some(h) ==> h as int == len,
        <i32 as LenHeader>::spec_from_len(len) is Some <==> len <= i32::MAX,
        <i32 as LenHeader>::spec_from_len(len) matches Some(h) ==> h as int == len,
        <i64 as LenHeader>::spec_from_len(len) is Some <==> len <= i64::MAX,
        <i64 as LenHeader>::spec_from_len(len) matches Some(h) ==> h as int == len,
        <i128 as LenHeader>::spec_from_len(len) is Some <==> len <= i128::MAX,
        <i128 as LenHeader>::spec_from_len(len) matches Some(h) ==> h as int == len,
        <isize as LenHeader>::spec_from_len(len) is Some <==> len <= isize::MAX,
        <isize as LenHeader>::spec_from_len(len) matches Some(h) ==> h as int == len,
{
}

/// A header read back gives a length exactly when it is not negative and
/// fits `usize`, and then that length is its value.
pub proof fn lemma_headers_give_back(h8: u8, h16: u16, h32: u32, h64: u64, h128: u128, hs: usize, g8: i8, g16: i16, g32: i32, g64: i64, g128: i128, gs: isize)
    ensures
        <u8 as LenHeader>::spec_to_len(h8) is Some <==> 0 <= h8 <= usize::MAX,
        <u8 as LenHeader>::spec_to_len(h8) matches Some(n) ==> n == h8,
        <u16 as LenHeader>::spec_to_len(h16) is Some <==> 0 <= h16 <= usize::MAX,
        <u16 as LenHeader>::spec_to_len(h16) matches Some(n) ==> n == h16,
        <u32 as LenHeader>::spec_to_len(h32) is Some <==> 0 <= h32 <= usize::MAX,
        <u32 as LenHeader>::spec_to_len(h32) matches Some(n) ==> n == h32,
        <u64 as LenHeader>::spec_to_len(h64) is Some <==> 0 <= h64 <= usize::MAX,
        <u64 as LenHeader>::spec_to_len(h64) matches Some(n) ==> n == h64,
        <u128 as LenHeader>::spec_to_len(h128) is Some <==> 0 <= h128 <= usize::MAX,
        <u128 as LenHeader>::spec_to_len(h128) matches Some(n) ==> n == h128,
        <usize as LenHeader>::spec_to_len(hs) is Some <==> 0 <= hs <= usize::MAX,
        <usize as LenHeader>::spec_to_len(hs) matches Some(n) ==> n == hs,
        <i8 as LenHeader>::spec_to_len(g8) is Some <==> 0 <= g8 <= usize::MAX,
        <i8 as LenHeader>::spec_to_len(g8) matches Some(n) ==> n == g8,
        <i16 as LenHeader>::spec_to_len(g16) is Some <==> 0 <= g16 <= usize::MAX,
        <i16 as LenHeader>::spec_to_len(g16) matches Some(n) ==> n == g16,
        <i32 as LenHeader>::spec_to_len(g32) is Some <==> 0 <= g32 <= usize::MAX,
        <i32 as LenHeader>::spec_to_len(g32) matches Some(n) ==> n == g32,
        <i64 as LenHeader>::spec_to_len(g64) is Some <==> 0 <= g64 <= usize::MAX,
        <i64 as LenHeader>::spec_to_len(g64) matches Some(n) ==> n == g64,
        <i128 as LenHeader>::spec_to_len(g128) is Some <==> 0 <= g128 <= usize::MAX,
        <i128 as LenHeader>::spec_to_len(g128) matches Some(n) ==> n == g128,
        <isize as LenHeader>::spec_to_len(gs) is Some <==> 0 <= gs <= usize::MAX,
        <isize as LenHeader>::spec_to_len(gs) matches Some(n) ==> n == gs,
{
}

/// A tuple of 2 is its fields one after another, in field order.
pub proof fn lemma_tuple2_layout<A: BitEncode, B: BitEncode>(m0: A::Model, m1: B::Model)
    requires
        A::spec_encode(m0) is Ok,
        B::spec_encode(m1) is Ok,
    ensures
        <(A, B) as BitEncode>::spec_encode((m0, m1)) == Ok::<Seq<bool>, CodecError>(A::spec_encode(m0)->Ok_0 + B::spec_encode(m1)->Ok_0),
{
}

/// Reading a tuple of 2 reads its fields in field order, each right after
/// the one before.
pub proof fn lemma_tuple2_read_order<A: BitDecode, B: BitDecode>(bits: Seq<bool>, v0: A::Model, c0: nat, v1: B::Model, c1: nat)
    requires
        A::spec_decode(bits) == Ok::<(A::Model, nat), CodecError>((v0, c0)),
        B::spec_decode(bits.skip((c0) as int)) == Ok::<(B::Model, nat), CodecError>((v1, c1)),
    ensures
        <(A, B) as BitDecode>::spec_decode(bits) == Ok::<((A::Model, B::Model), nat), CodecError>(((v0, v1), c0 + c1)),
{
}

/// A tuple of 3 is its fields one after another, in field order.
pub proof fn lemma_tuple3_layout<A: BitEncode, B: BitEncode, C: BitEncode>(m0: A::Model, m1: B::Model, m2: C::Model)
    requires
        A::spec_encode(m0) is Ok,
        B::spec_encode(m1) is Ok,
        C::spec_encode(m2) is Ok,
    ensures
        <(A, B, C) as BitEncode>::spec_encode((m0, m1, m2)) == Ok::<Seq<bool>, CodecError>(A::spec_encode(m0)->Ok_0 + B::spec_encode(m1)->Ok_0 + C::spec_encode(m2)->Ok_0),
{
}

/// Reading a tuple of 3 reads its fields in field order, each right after
/// the one before.
pub proof fn lemma_tuple3_read_order<A: BitDecode, B: BitDecode, C: BitDecode>(bits: Seq<bool>, v0: A::Model, c0: nat, v1: B::Model, c1: nat, v2: C::Model, c2: nat)
    requires
        A::spec_decode(bits) == Ok::<(A::Model, nat), CodecError>((v0, c0)),
        B::spec_decode(bits.skip((c0) as int)) == Ok::<(B::Model, nat), CodecError>((v1, c1)),
        C::spec_decode(bits.skip((c0 + c1) as int)) == Ok::<(C::Model, nat), CodecError>((v2, c2)),
    ensures
        <(A, B, C) as BitDecode>::spec_decode(bits) == Ok::<((A::Model, B::Model, C::Model), nat), CodecError>(((v0, v1, v2), c0 + c1 + c2)),
{
}

/// A tuple of 4 is its fields one after another, in field order.
pub proof fn lemma_tuple4_layout<A: BitEncode, B: BitEncode, C: BitEncode, D: BitEncode>(m0: A::Model, m1: B::Model, m2: C::Model, m3: D::Model)
    requires
        A::spec_encode(m0) is Ok,
        B::spec_encode(m1) is Ok,
        C::spec_encode(m2) is Ok,
        D::spec_encode(m3) is Ok,
    ensures
        <(A, B, C, D) as BitEncode>::spec_encode((m0, m1, m2, m3)) == Ok::<Seq<bool>, CodecError>(A::spec_encode(m0)->Ok_0 + B::spec_encode(m1)->Ok_0 + C::spec_encode(m2)->Ok_0 + D::spec_encode(m3)->Ok_0),
{
}

/// Reading a tuple of 4 reads its fields in field order, each right after
/// the one before.
pub proof fn lemma_tuple4_read_order<A: BitDecode, B: BitDecode, C: BitDecode, D: BitDecode>(bits: Seq<bool>, v0: A::Model, c0: nat, v1: B::Model, c1: nat, v2: C::Model, c2: nat, v3: D::Model, c3: nat)
    requires
        A::spec_decode(bits) == Ok::<(A::Model, nat), CodecError>((v0, c0)),
        B::spec_decode(bits.skip((c0) as int)) == Ok::<(B::Model, nat), CodecError>((v1, c1)),
        C::spec_decode(bits.skip((c0 + c1) as int)) == Ok::<(C::Model, nat), CodecError>((v2, c2)),
        D::spec_decode(bits.skip((c0 + c1 + c2) as int)) == Ok::<(D::Model, nat), CodecError>((v3, c3)),
    ensures
        <(A, B, C, D) as BitDecode>::spec_decode(bits) == Ok::<((A::Model, B::Model, C::Model, D::Model), nat), CodecError>(((v0, v1, v2, v3), c0 + c1 + c2 + c3)),
{
}

/// A tuple of 5 is its fields one after another, in field order.
pub proof fn lemma_tuple5_layout<A: BitEncode, B: BitEncode, C: BitEncode, D: BitEncode, E: BitEncode>(m0: A::Model, m1: B::Model, m2: C::Model, m3: D::Model, m4: E::Model)
    requires
        A::spec_encode(m0) is Ok,
        B::spec_encode(m1) is Ok,
        C::spec_encode(m2) is Ok,
        D::spec_encode(m3) is Ok,
        E::spec_encode(m4) is Ok,
    ensures
        <(A, B, C, D, E) as BitEncode>::spec_encode((m0, m1, m2, m3, m4)) == Ok::<Seq<bool>, CodecError>(A::spec_encode(m0)->Ok_0 + B::spec_encode(m1)->Ok_0 + C::spec_encode(m2)->Ok_0 + D::spec_encode(m3)->Ok_0 + E::spec_encode(m4)->Ok_0),
{
}

/// Reading a tuple of 5 reads its fields in field order, each right after
/// the one before.
pub proof fn lemma_tuple5_read_order<A: BitDecode, B: BitDecode, C: BitDecode, D: BitDecode, E: BitDecode>(bits: Seq<bool>, v0: A::Model, c0: nat, v1: B::Model, c1: nat, v2: C::Model, c2: nat, v3: D::Model, c3: nat, v4: E::Model, c4: nat)
    requires
        A::spec_decode(bits) == Ok::<(A::Model, nat), CodecError>((v0, c0)),
        B::spec_decode(bits.skip((c0) as int)) == Ok::<(B::Model, nat), CodecError>((v1, c1)),
        C::spec_decode(bits.skip((c0 + c1) as int)) == Ok::<(C::Model, nat), CodecError>((v2, c2)),
        D::spec_decode(bits.skip((c0 + c1 + c2) as int)) == Ok::<(D::Model, nat), CodecError>((v3, c3)),
        E::spec_decode(bits.skip((c0 + c1 + c2 + c3) as int)) == Ok::<(E::Model, nat), CodecError>((v4, c4)),
    ensures
        <(A, B, C, D, E) as BitDecode>::spec_decode(bits) == Ok::<((A::Model, B::Model, C::Model, D::Model, E::Model), nat), CodecError>(((v0, v1, v2, v3, v4), c0 + c1 + c2 + c3 + c4)),
{
}

/// A tuple of 6 is its fields one after another, in field order.
pub proof fn lemma_tuple6_layout<A: BitEncode, B: BitEncode, C: BitEncode, D: BitEncode, E: BitEncode, F: BitEncode>(m0: A::Model, m1: B::Model, m2: C::Model, m3: D::Model, m4: E::Model, m5: F::Model)
    requires
        A::spec_encode(m0) is Ok,
        B::spec_encode(m1) is Ok,
        C::spec_encode(m2) is Ok,
        D::spec_encode(m3) is Ok,
        E::spec_encode(m4) is Ok,
        F::spec_encode(m5) is Ok,
    ensures
        <(A, B, C, D, E, F) as BitEncode>::spec_encode((m0, m1, m2, m3, m4, m5)) == Ok::<Seq<bool>, CodecError>(A::spec_encode(m0)->Ok_0 + B::spec_encode(m1)->Ok_0 + C::spec_encode(m2)->Ok_0 + D::spec_encode(m3)->Ok_0 + E::spec_encode(m4)->Ok_0 + F::spec_encode(m5)->Ok_0),
{
}

/// Reading a tuple of 6 reads its fields in field order, each right after
/// the one before.
pub proof fn lemma_tuple6_read_order<A: BitDecode, B: BitDecode, C: BitDecode, D: BitDecode, E: BitDecode, F: BitDecode>(bits: Seq<bool>, v0: A::Model, c0: nat, v1: B::Model, c1: nat, v2: C::Model, c2: nat, v3: D::Model, c3: nat, v4: E::Model, c4: nat, v5: F::Model, c5: nat)
    requires
        A::spec_decode(bits) == Ok::<(A::Model, nat), CodecError>((v0, c0)),
        B::spec_decode(bits.skip((c0) as int)) == Ok::<(B::Model, nat), CodecError>((v1, c1)),
        C::spec_decode(bits.skip((c0 + c1) as int)) == Ok::<(C::Model, nat), CodecError>((v2, c2)),
        D::spec_decode(bits.skip((c0 + c1 + c2) as int)) == Ok::<(D::Model, nat), CodecError>((v3, c3)),
        E::spec_decode(bits.skip((c0 + c1 + c2 + c3) as int)) == Ok::<(E::Model, nat), CodecError>((v4, c4)),
        F::spec_decode(bits.skip((c0 + c1 + c2 + c3 + c4) as int)) == Ok::<(F::Model, nat), CodecError>((v5, c5)),
    ensures
        <(A, B, C, D, E, F) as BitDecode>::spec_decode(bits) == Ok::<((A::Model, B::Model, C::Model, D::Model, E::Model, F::Model), nat), CodecError>(((v0, v1, v2, v3, v4, v5), c0 + c1 + c2 + c3 + c4 + c5)),
{
}

/// A tuple of 7 is its fields one after another, in field order.
pub proof fn lemma_tuple7_layout<A: BitEncode, B: BitEncode, C: BitEncode, D: BitEncode, E: BitEncode, F: BitEncode, G: BitEncode>(m0: A::Model, m1: B::Model, m2: C::Model, m3: D::Model, m4: E::Model, m5: F::Model, m6: G::Model)
    requires
        A::spec_encode(m0) is Ok,
        B::spec_encode(m1) is Ok,
        C::spec_encode(m2) is Ok,
        D::spec_encode(m3) is Ok,
        E::spec_encode(m4) is Ok,
        F::spec_encode(m5) is Ok,
        G::spec_encode(m6) is Ok,
    ensures
        <(A, B, C, D, E, F, G) as BitEncode>::spec_encode((m0, m1, m2, m3, m4, m5, m6)) == Ok::<Seq<bool>, CodecError>(A::spec_encode(m0)->Ok_0 + B::spec_encode(m1)->Ok_0 + C::spec_encode(m2)->Ok_0 + D::spec_encode(m3)->Ok_0 + E::spec_encode(m4)->Ok_0 + F::spec_encode(m5)->Ok_0 + G::spec_encode(m6)->Ok_0),
{
}

/// Reading a tuple of 7 reads its fields in field order, each right after
/// the one before.
pub proof fn lemma_tuple7_read_order<A: BitDecode, B: BitDecode, C: BitDecode, D: BitDecode, E: BitDecode, F: BitDecode, G: BitDecode>(bits: Seq<bool>, v0: A::Model, c0: nat, v1: B::Model, c1: nat, v2: C::Model, c2: nat, v3: D::Model, c3: nat, v4: E::Model, c4: nat, v5: F::Model, c5: nat, v6: G::Model, c6: nat)
    requires
        A::spec_decode(bits) == Ok::<(A::Model, nat), CodecError>((v0, c0)),
        B::spec_decode(bits.skip((c0) as int)) == Ok::<(B::Model, nat), CodecError>((v1, c1)),
        C::spec_decode(bits.skip((c0 + c1) as int)) == Ok::<(C::Model, nat), CodecError>((v2, c2)),
        D::spec_decode(bits.skip((c0 + c1 + c2) as int)) == Ok::<(D::Model, nat), CodecError>((v3, c3)),
        E::spec_decode(bits.skip((c0 + c1 + c2 + c3) as int)) == Ok::<(E::Model, nat), CodecError>((v4, c4)),
        F::spec_decode(bits.skip((c0 + c1 + c2 + c3 + c4) as int)) == Ok::<(F::Model, nat), CodecError>((v5, c5)),
        G::spec_decode(bits.skip((c0 + c1 + c2 + c3 + c4 + c5) as int)) == Ok::<(G::Model, nat), CodecError>((v6, c6)),
    ensures
        <(A, B, C, D, E, F, G) as BitDecode>::spec_decode(bits) == Ok::<((A::Model, B::Model, C::Model, D::Model, E::Model, F::Model, G::Model), nat), CodecError>(((v0, v1, v2, v3, v4, v5, v6), c0 + c1 + c2 + c3 + c4 + c5 + c6)),
{
}

/// A tuple of 8 is its fields one after another, in field order.
pub proof fn lemma_tuple8_layout<A: BitEncode, B: BitEncode, C: BitEncode, D: BitEncode, E: BitEncode, F: BitEncode, G: BitEncode, H: BitEncode>(m0: A::Model, m1: B::Model, m2: C::Model, m3: D::Model, m4: E::Model, m5: F::Model, m6: G::Model, m7: H::Model)
    requires
        A::spec_encode(m0) is Ok,
        B::spec_encode(m1) is Ok,
        C::spec_encode(m2) is Ok,
        D::spec_encode(m3) is Ok,
        E::spec_encode(m4) is Ok,
        F::spec_encode(m5) is Ok,
        G::spec_encode(m6) is Ok,
        H::spec_encode(m7) is Ok,
    ensures
        <(A, B, C, D, E, F, G, H) as BitEncode>::spec_encode((m0, m1, m2, m3, m4, m5, m6, m7)) == Ok::<Seq<bool>, CodecError>(A::spec_encode(m0)->Ok_0 + B::spec_encode(m1)->Ok_0 + C::spec_encode(m2)->Ok_0 + D::spec_encode(m3)->Ok_0 + E::spec_encode(m4)->Ok_0 + F::spec_encode(m5)->Ok_0 + G::spec_encode(m6)->Ok_0 + H::spec_encode(m7)->Ok_0),
{
}

/// Reading a tuple of 8 reads its fields in field order, each right after
/// the one before.
pub proof fn lemma_tuple8_read_order<A: BitDecode, B: BitDecode, C: BitDecode, D: BitDecode, E: BitDecode, F: BitDecode, G: BitDecode, H: BitDecode>(bits: Seq<bool>, v0: A::Model, c0: nat, v1: B::Model, c1: nat, v2: C::Model, c2: nat, v3: D::Model, c3: nat, v4: E::Model, c4: nat, v5: F::Model, c5: nat, v6: G::Model, c6: nat, v7: H::Model, c7: nat)
    requires
        A::spec_decode(bits) == Ok::<(A::Model, nat), CodecError>((v0, c0)),
        B::spec_decode(bits.skip((c0) as int)) == Ok::<(B::Model, nat), CodecError>((v1, c1)),
        C::spec_decode(bits.skip((c0 + c1) as int)) == Ok::<(C::Model, nat), CodecError>((v2, c2)),
        D::spec_decode(bits.skip((c0 + c1 + c2) as int)) == Ok::<(D::Model, nat), CodecError>((v3, c3)),
        E::spec_decode(bits.skip((c0 + c1 + c2 + c3) as int)) == Ok::<(E::Model, nat), CodecError>((v4, c4)),
        F::spec_decode(bits.skip((c0 + c1 + c2 + c3 + c4) as int)) == Ok::<(F::Model, nat), CodecError>((v5, c5)),
        G::spec_decode(bits.skip((c0 + c1 + c2 + c3 + c4 + c5) as int)) == Ok::<(G::Model, nat), CodecError>((v6, c6)),
        H::spec_decode(bits.skip((c0 + c1 + c2 + c3 + c4 + c5 + c6) as int)) == Ok::<(H::Model, nat), CodecError>((v7, c7)),
    ensures
        <(A, B, C, D, E, F, G, H) as BitDecode>::spec_decode(bits) == Ok::<((A::Model, B::Model, C::Model, D::Model, E::Model, F::Model, G::Model, H::Model), nat), CodecError>(((v0, v1, v2, v3, v4, v5, v6, v7), c0 + c1 + c2 + c3 + c4 + c5 + c6 + c7)),
{
}

/// A tuple of 9 is its fields one after another, in field order.
pub proof fn lemma_tuple9_layout<A: BitEncode, B: BitEncode, C: BitEncode, D: BitEncode, E: BitEncode, F: BitEncode, G: BitEncode, H: BitEncode, I: BitEncode>(m0: A::Model, m1: B::Model, m2: C::Model, m3: D::Model, m4: E::Model, m5: F::Model, m6: G::Model, m7: H::Model, m8: I::Model)
    requires
        A::spec_encode(m0) is Ok,
        B::spec_encode(m1) is Ok,
        C::spec_encode(m2) is Ok,
        D::spec_encode(m3) is Ok,
        E::spec_encode(m4) is Ok,
        F::spec_encode(m5) is Ok,
        G::spec_encode(m6) is Ok,
        H::spec_encode(m7) is Ok,
        I::spec_encode(m8) is Ok,
    ensures
        <(A, B, C, D, E, F, G, H, I) as BitEncode>::spec_encode((m0, m1, m2, m3, m4, m5, m6, m7, m8)) == Ok::<Seq<bool>, CodecError>(A::spec_encode(m0)->Ok_0 + B::spec_encode(m1)->Ok_0 + C::spec_encode(m2)->Ok_0 + D::spec_encode(m3)->Ok_0 + E::spec_encode(m4)->Ok_0 + F::spec_encode(m5)->Ok_0 + G::spec_encode(m6)->Ok_0 + H::spec_encode(m7)->Ok_0 + I::spec_encode(m8)->Ok_0),
{
}

/// Reading a tuple of 9 reads its fields in field order, each right after
/// the one before.
pub proof fn lemma_tuple9_read_order<A: BitDecode, B: BitDecode, C: BitDecode, D: BitDecode, E: BitDecode, F: BitDecode, G: BitDecode, H: BitDecode, I: BitDecode>(bits: Seq<bool>, v0: A::Model, c0: nat, v1: B::Model, c1: nat, v2: C::Model, c2: nat, v3: D::Model, c3: nat, v4: E::Model, c4: nat, v5: F::Model, c5: nat, v6: G::Model, c6: nat, v7: H::Model, c7: nat, v8: I::Model, c8: nat)
    requires
        A::spec_decode(bits) == Ok::<(A::Model, nat), CodecError>((v0, c0)),
        B::spec_decode(bits.skip((c0) as int)) == Ok::<(B::Model, nat), CodecError>((v1, c1)),
        C::spec_decode(bits.skip((c0 + c1) as int)) == Ok::<(C::Model, nat), CodecError>((v2, c2)),
        D::spec_decode(bits.skip((c0 + c1 + c2) as int)) == Ok::<(D::Model, nat), CodecError>((v3, c3)),
        E::spec_decode(bits.skip((c0 + c1 + c2 + c3) as int)) == Ok::<(E::Model, nat), CodecError>((v4, c4)),
        F::spec_decode(bits.skip((c0 + c1 + c2 + c3 + c4) as int)) == Ok::<(F::Model, nat), CodecError>((v5, c5)),
        G::spec_decode(bits.skip((c0 + c1 + c2 + c3 + c4 + c5) as int)) == Ok::<(G::Model, nat), CodecError>((v6, c6)),
        H::spec_decode(bits.skip((c0 + c1 + c2 + c3 + c4 + c5 + c6) as int)) == Ok::<(H::Model, nat), CodecError>((v7, c7)),
        I::spec_decode(bits.skip((c0 + c1 + c2 + c3 + c4 + c5 + c6 + c7) as int)) == Ok::<(I::Model, nat), CodecError>((v8, c8)),
    ensures
        <(A, B, C, D, E, F, G, H, I) as BitDecode>::spec_decode(bits) == Ok::<((A::Model, B::Model, C::Model, D::Model, E::Model, F::Model, G::Model, H::Model, I::Model), nat), CodecError>(((v0, v1, v2, v3, v4, v5, v6, v7, v8), c0 + c1 + c2 + c3 + c4 + c5 + c6 + c7 + c8)),
{
}

/// A tuple of 10 is its fields one after another, in field order.
pub proof fn lemma_tuple10_layout<A: BitEncode, B: BitEncode, C: BitEncode, D: BitEncode, E: BitEncode, F: BitEncode, G: BitEncode, H: BitEncode, I: BitEncode, J: BitEncode>(m0: A::Model, m1: B::Model, m2: C::Model, m3: D::Model, m4: E::Model, m5: F::Model, m6: G::Model, m7: H::Model, m8: I::Model, m9: J::Model)
    requires
        A::spec_encode(m0) is Ok,
        B::spec_encode(m1) is Ok,
        C::spec_encode(m2) is Ok,
        D::spec_encode(m3) is Ok,
        E::spec_encode(m4) is Ok,
        F::spec_encode(m5) is Ok,
        G::spec_encode(m6) is Ok,
        H::spec_encode(m7) is Ok,
        I::spec_encode(m8) is Ok,
        J::spec_encode(m9) is Ok,
    ensures
        <(A, B, C, D, E, F, G, H, I, J) as BitEncode>::spec_encode((m0, m1, m2, m3, m4, m5, m6, m7, m8, m9)) == Ok::<Seq<bool>, CodecError>(A::spec_encode(m0)->Ok_0 + B::spec_encode(m1)->Ok_0 + C::spec_encode(m2)->Ok_0 + D::spec_encode(m3)->Ok_0 + E::spec_encode(m4)->Ok_0 + F::spec_encode(m5)->Ok_0 + G::spec_encode(m6)->Ok_0 + H::spec_encode(m7)->Ok_0 + I::spec_encode(m8)->Ok_0 + J::spec_encode(m9)->Ok_0),
{
}

/// Reading a tuple of 10 reads its fields in field order, each right after
/// the one before.
pub proof fn lemma_tuple10_read_order<A: BitDecode, B: BitDecode, C: BitDecode, D: BitDecode, E: BitDecode, F: BitDecode, G: BitDecode, H: BitDecode, I: BitDecode, J: BitDecode>(bits: Seq<bool>, v0: A::Model, c0: nat, v1: B::Model, c1: nat, v2: C::Model, c2: nat, v3: D::Model, c3: nat, v4: E::Model, c4: nat, v5: F::Model, c5: nat, v6: G::Model, c6: nat, v7: H::Model, c7: nat, v8: I::Model, c8: nat, v9: J::Model, c9: nat)
    requires
        A::spec_decode(bits) == Ok::<(A::Model, nat), CodecError>((v0, c0)),
        B::spec_decode(bits.skip((c0) as int)) == Ok::<(B::Model, nat), CodecError>((v1, c1)),
        C::spec_decode(bits.skip((c0 + c1) as int)) == Ok::<(C::Model, nat), CodecError>((v2, c2)),
        D::spec_decode(bits.skip((c0 + c1 + c2) as int)) == Ok::<(D::Model, nat), CodecError>((v3, c3)),
        E::spec_decode(bits.skip((c0 + c1 + c2 + c3) as int)) == Ok::<(E::Model, nat), CodecError>((v4, c4)),
        F::spec_decode(bits.skip((c0 + c1 + c2 + c3 + c4) as int)) == Ok::<(F::Model, nat), CodecError>((v5, c5)),
        G::spec_decode(bits.skip((c0 + c1 + c2 + c3 + c4 + c5) as int)) == Ok::<(G::Model, nat), CodecError>((v6, c6)),
        H::spec_decode(bits.skip((c0 + c1 + c2 + c3 + c4 + c5 + c6) as int)) == Ok::<(H::Model, nat), CodecError>((v7, c7)),
        I::spec_decode(bits.skip((c0 + c1 + c2 + c3 + c4 + c5 + c6 + c7) as int)) == Ok::<(I::Model, nat), CodecError>((v8, c8)),
        J::spec_decode(bits.skip((c0 + c1 + c2 + c3 + c4 + c5 + c6 + c7 + c8) as int)) == Ok::<(J::Model, nat), CodecError>((v9, c9)),
    ensures
        <(A, B, C, D, E, F, G, H, I, J) as BitDecode>::spec_decode(bits) == Ok::<((A::Model, B::Model, C::Model, D::Model, E::Model, F::Model, G::Model, H::Model, I::Model, J::Model), nat), CodecError>(((v0, v1, v2, v3, v4, v5, v6, v7, v8, v9), c0 + c1 + c2 + c3 + c4 + c5 + c6 + c7 + c8 + c9)),
{
}

/// A tuple of 11 is its fields one after another, in field order.
pub proof fn lemma_tuple11_layout<A: BitEncode, B: BitEncode, C: BitEncode, D: BitEncode, E: BitEncode, F: BitEncode, G: BitEncode, H: BitEncode, I: BitEncode, J: BitEncode, K: BitEncode>(m0: A::Model, m1: B::Model, m2: C::Model, m3: D::Model, m4: E::Model, m5: F::Model, m6: G::Model, m7: H::Model, m8: I::Model, m9: J::Model, m10: K::Model)
    requires
        A::spec_encode(m0) is Ok,
        B::spec_encode(m1) is Ok,
        C::spec_encode(m2) is Ok,
        D::spec_encode(m3) is Ok,
        E::spec_encode(m4) is Ok,
        F::spec_encode(m5) is Ok,
        G::spec_encode(m6) is Ok,
        H::spec_encode(m7) is Ok,
        I::spec_encode(m8) is Ok,
        J::spec_encode(m9) is Ok,
        K::spec_encode(m10) is Ok,
    ensures
        <(A, B, C, D, E, F, G, H, I, J, K) as BitEncode>::spec_encode((m0, m1, m2, m3, m4, m5, m6, m7, m8, m9, m10)) == Ok::<Seq<bool>, CodecError>(A::spec_encode(m0)->Ok_0 + B::spec_encode(m1)->Ok_0 + C::spec_encode(m2)->Ok_0 + D::spec_encode(m3)->Ok_0 + E::spec_encode(m4)->Ok_0 + F::spec_encode(m5)->Ok_0 + G::spec_encode(m6)->Ok_0 + H::spec_encode(m7)->Ok_0 + I::spec_encode(m8)->Ok_0 + J::spec_encode(m9)->Ok_0 + K::spec_encode(m10)->Ok_0),
{
}

/// Reading a tuple of 11 reads its fields in field order, each right after
/// the one before.
pub proof fn lemma_tuple11_read_order<A: BitDecode, B: BitDecode, C: BitDecode, D: BitDecode, E: BitDecode, F: BitDecode, G: BitDecode, H: BitDecode, I: BitDecode, J: BitDecode, K: BitDecode>(bits: Seq<bool>, v0: A::Model, c0: nat, v1: B::Model, c1: nat, v2: C::Model, c2: nat, v3: D::Model, c3: nat, v4: E::Model, c4: nat, v5: F::Model, c5: nat, v6: G::Model, c6: nat, v7: H::Model, c7: nat, v8: I::Model, c8: nat, v9: J::Model, c9: nat, v10: K::Model, c10: nat)
    requires
        A::spec_decode(bits) == Ok::<(A::Model, nat), CodecError>((v0, c0)),
        B::spec_decode(bits.skip((c0) as int)) == Ok::<(B::Model, nat), CodecError>((v1, c1)),
        C::spec_decode(bits.skip((c0 + c1) as int)) == Ok::<(C::Model, nat), CodecError>((v2, c2)),
        D::spec_decode(bits.skip((c0 + c1 + c2) as int)) == Ok::<(D::Model, nat), CodecError>((v3, c3)),
        E::spec_decode(bits.skip((c0 + c1 + c2 + c3) as int)) == Ok::<(E::Model, nat), CodecError>((v4, c4)),
        F::spec_decode(bits.skip((c0 + c1 + c2 + c3 + c4) as int)) == Ok::<(F::Model, nat), CodecError>((v5, c5)),
        G::spec_decode(bits.skip((c0 + c1 + c2 + c3 + c4 + c5) as int)) == Ok::<(G::Model, nat), CodecError>((v6, c6)),
        H::spec_decode(bits.skip((c0 + c1 + c2 + c3 + c4 + c5 + c6) as int)) == Ok::<(H::Model, nat), CodecError>((v7, c7)),
        I::spec_decode(bits.skip((c0 + c1 + c2 + c3 + c4 + c5 + c6 + c7) as int)) == Ok::<(I::Model, nat), CodecError>((v8, c8)),
        J::spec_decode(bits.skip((c0 + c1 + c2 + c3 + c4 + c5 + c6 + c7 + c8) as int)) == Ok::<(J::Model, nat), CodecError>((v9, c9)),
        K::spec_decode(bits.skip((c0 + c1 + c2 + c3 + c4 + c5 + c6 + c7 + c8 + c9) as int)) == Ok::<(K::Model, nat), CodecError>((v10, c10)),
    ensures
        <(A, B, C, D, E, F, G, H, I, J, K) as BitDecode>::spec_decode(bits) == Ok::<((A::Model, B::Model, C::Model, D::Model, E::Model, F::Model, G::Model, H::Model, I::Model, J::Model, K::Model), nat), CodecError>(((v0, v1, v2, v3, v4, v5, v6, v7, v8, v9, v10), c0 + c1 + c2 + c3 + c4 + c5 + c6 + c7 + c8 + c9 + c10)),
{
}

/// A tuple of 12 is its fields one after another, in field order.
pub proof fn lemma_tuple12_layout<A: BitEncode, B: BitEncode, C: BitEncode, D: BitEncode, E: BitEncode, F: BitEncode, G: BitEncode, H: BitEncode, I: BitEncode, J: BitEncode, K: BitEncode, L: BitEncode>(m0: A::Model, m1: B::Model, m2: C::Model, m3: D::Model, m4: E::Model, m5: F::Model, m6: G::Model, m7: H::Model, m8: I::Model, m9: J::Model, m10: K::Model, m11: L::Model)
    requires
        A::spec_encode(m0) is Ok,
        B::spec_encode(m1) is Ok,
        C::spec_encode(m2) is Ok,
        D::spec_encode(m3) is Ok,
        E::spec_encode(m4) is Ok,
        F::spec_encode(m5) is Ok,
        G::spec_encode(m6) is Ok,
        H::spec_encode(m7) is Ok,
        I::spec_encode(m8) is Ok,
        J::spec_encode(m9) is Ok,
        K::spec_encode(m10) is Ok,
        L::spec_encode(m11) is Ok,
    ensures
        <(A, B, C, D, E, F, G, H, I, J, K, L) as BitEncode>::spec_encode((m0, m1, m2, m3, m4, m5, m6, m7, m8, m9, m10, m11)) == Ok::<Seq<bool>, CodecError>(A::spec_encode(m0)->Ok_0 + B::spec_encode(m1)->Ok_0 + C::spec_encode(m2)->Ok_0 + D::spec_encode(m3)->Ok_0 + E::spec_encode(m4)->Ok_0 + F::spec_encode(m5)->Ok_0 + G::spec_encode(m6)->Ok_0 + H::spec_encode(m7)->Ok_0 + I::spec_encode(m8)->Ok_0 + J::spec_encode(m9)->Ok_0 + K::spec_encode(m10)->Ok_0 + L::spec_encode(m11)->Ok_0),
{
}

/// Reading a tuple of 12 reads its fields in field order, each right after
/// the one before.
pub proof fn lemma_tuple12_read_order<A: BitDecode, B: BitDecode, C: BitDecode, D: BitDecode, E: BitDecode, F: BitDecode, G: BitDecode, H: BitDecode, I: BitDecode, J: BitDecode, K: BitDecode, L: BitDecode>(bits: Seq<bool>, v0: A::Model, c0: nat, v1: B::Model, c1: nat, v2: C::Model, c2: nat, v3: D::Model, c3: nat, v4: E::Model, c4: nat, v5: F::Model, c5: nat, v6: G::Model, c6: nat, v7: H::Model, c7: nat, v8: I::Model, c8: nat, v9: J::Model, c9: nat, v10: K::Model, c10: nat, v11: L::Model, c11: nat)
    requires
        A::spec_decode(bits) == Ok::<(A::Model, nat), CodecError>((v0, c0)),
        B::spec_decode(bits.skip((c0) as int)) == Ok::<(B::Model, nat), CodecError>((v1, c1)),
        C::spec_decode(bits.skip((c0 + c1) as int)) == Ok::<(C::Model, nat), CodecError>((v2, c2)),
        D::spec_decode(bits.skip((c0 + c1 + c2) as int)) == Ok::<(D::Model, nat), CodecError>((v3, c3)),
        E::spec_decode(bits.skip((c0 + c1 + c2 + c3) as int)) == Ok::<(E::Model, nat), CodecError>((v4, c4)),
        F::spec_decode(bits.skip((c0 + c1 + c2 + c3 + c4) as int)) == Ok::<(F::Model, nat), CodecError>((v5, c5)),
        G::spec_decode(bits.skip((c0 + c1 + c2 + c3 + c4 + c5) as int)) == Ok::<(G::Model, nat), CodecError>((v6, c6)),
        H::spec_decode(bits.skip((c0 + c1 + c2 + c3 + c4 + c5 + c6) as int)) == Ok::<(H::Model, nat), CodecError>((v7, c7)),
        I::spec_decode(bits.skip((c0 + c1 + c2 + c3 + c4 + c5 + c6 + c7) as int)) == Ok::<(I::Model, nat), CodecError>((v8, c8)),
        J::spec_decode(bits.skip((c0 + c1 + c2 + c3 + c4 + c5 + c6 + c7 + c8) as int)) == Ok::<(J::Model, nat), CodecError>((v9, c9)),
        K::spec_decode(bits.skip((c0 + c1 + c2 + c3 + c4 + c5 + c6 + c7 + c8 + c9) as int)) == Ok::<(K::Model, nat), CodecError>((v10, c10)),
        L::spec_decode(bits.skip((c0 + c1 + c2 + c3 + c4 + c5 + c6 + c7 + c8 + c9 + c10) as int)) == Ok::<(L::Model, nat), CodecError>((v11, c11)),
    ensures
        <(A, B, C, D, E, F, G, H, I, J, K, L) as BitDecode>::spec_decode(bits) == Ok::<((A::Model, B::Model, C::Model, D::Model, E::Model, F::Model, G::Model, H::Model, I::Model, J::Model, K::Model, L::Model), nat), CodecError>(((v0, v1, v2, v3, v4, v5, v6, v7, v8, v9, v10, v11), c0 + c1 + c2 + c3 + c4 + c5 + c6 + c7 + c8 + c9 + c10 + c11)),
{
}

/// Byte `k` of the `n` little-endian bytes of `v` is `(v / 2^(8k)) % 256`.
proof fn lemma_le_seq_index(v: nat, n: nat, k: int)
    requires
        0 <= k < n,
    ensures
        le_seq(v, n).len() == n,
        le_seq(v, n)[k] as nat == (v / pow2((8 * k) as nat)) % 256,
    decreases k,
{
    lemma_le_seq_len(v, n);
    lemma2_to64();
    if k == 0 {
        assert(le_seq(v, n)[0] == (v % 256) as u8);
        assert(pow2(0) == 1);
        assert(v / 1 == v);
    } else {
        let p = pow2((8 * (k - 1)) as nat);
        lemma_le_seq_index(v / 256, (n - 1) as nat, k - 1);
        assert(le_seq(v, n)[k] == le_seq(v / 256, (n - 1) as nat)[k - 1]);
        lemma_pow2_adds(8, (8 * (k - 1)) as nat);
        assert((8 + 8 * (k - 1)) as nat == (8 * k) as nat);
        assert(pow2((8 * k) as nat) == 256 * p);
        lemma_pow2_pos((8 * (k - 1)) as nat);
        lemma_div_denominator(v as int, 256, p as int);
        assert((v / 256) / p == v / (256 * p));
    }
}

/// The bits of the `n` little-endian bytes of `v`: byte `k` stands at bits
/// `8k .. 8k + 8` and is `(v / 2^(8k)) % 256`.
proof fn lemma_le_bits_byte(v: nat, n: nat, k: int)
    requires
        0 <= k < n,
    ensures
        le_bits(v, n).len() == 8 * n,
        value_of(le_bits(v, n).subrange(8 * k, 8 * k + 8)) == (v / pow2((8 * k) as nat)) % 256,
{
    lemma_le_seq_index(v, n, k);
    lemma_byte_at(le_seq(v, n), k);
}

/// A `u8` is 8 bits, its bytes least significant first: byte `k` is
/// `(m / 2^(8k)) % 256`.
pub proof fn lemma_u8_layout(m: u8, k: int)
    requires
        0 <= k < 1,
    ensures
        <u8 as BitEncode>::spec_encode(m) is Ok,
        <u8 as BitEncode>::spec_encode(m)->Ok_0.len() == 8,
        value_of(<u8 as BitEncode>::spec_encode(m)->Ok_0.subrange(8 * k, 8 * k + 8))
            == (m as nat / pow2((8 * k) as nat)) % 256,
{
    lemma_le_bits_byte(m as nat, 1, k);
}

/// A `u16` is 16 bits, its bytes least significant first: byte `k` is
/// `(m / 2^(8k)) % 256`.
pub proof fn lemma_u16_layout(m: u16, k: int)
    requires
        0 <= k < 2,
    ensures
        <u16 as BitEncode>::spec_encode(m) is Ok,
        <u16 as BitEncode>::spec_encode(m)->Ok_0.len() == 16,
        value_of(<u16 as BitEncode>::spec_encode(m)->Ok_0.subrange(8 * k, 8 * k + 8))
            == (m as nat / pow2((8 * k) as nat)) % 256,
{
    lemma_le_bits_byte(m as nat, 2, k);
}

/// A `u32` is 32 bits, its bytes least significant first: byte `k` is
/// `(m / 2^(8k)) % 256`.
pub proof fn lemma_u32_layout(m: u32, k: int)
    requires
        0 <= k < 4,
    ensures
        <u32 as BitEncode>::spec_encode(m) is Ok,
        <u32 as BitEncode>::spec_encode(m)->Ok_0.len() == 32,
        value_of(<u32 as BitEncode>::spec_encode(m)->Ok_0.subrange(8 * k, 8 * k + 8))
            == (m as nat / pow2((8 * k) as nat)) % 256,
{
    lemma_le_bits_byte(m as nat, 4, k);
}

/// A `u64` is 64 bits, its bytes least significant first: byte `k` is
/// `(m / 2^(8k)) % 256`.
pub proof fn lemma_u64_layout(m: u64, k: int)
    requires
        0 <= k < 8,
    ensures
        <u64 as BitEncode>::spec_encode(m) is Ok,
        <u64 as BitEncode>::spec_encode(m)->Ok_0.len() == 64,
        value_of(<u64 as BitEncode>::spec_encode(m)->Ok_0.subrange(8 * k, 8 * k + 8))
            == (m as nat / pow2((8 * k) as nat)) % 256,
{
    lemma_le_bits_byte(m as nat, 8, k);
}

/// A `u128` is 128 bits, its bytes least significant first: byte `k` is
/// `(m / 2^(8k)) % 256`.
pub proof fn lemma_u128_layout(m: u128, k: int)
    requires
        0 <= k < 16,
    ensures
        <u128 as BitEncode>::spec_encode(m) is Ok,
        <u128 as BitEncode>::spec_encode(m)->Ok_0.len() == 128,
        value_of(<u128 as BitEncode>::spec_encode(m)->Ok_0.subrange(8 * k, 8 * k + 8))
            == (m as nat / pow2((8 * k) as nat)) % 256,
{
    lemma_le_bits_byte(m as nat, 16, k);
}

/// A `usize` is 64 bits, its bytes least significant first: byte `k` is
/// `(m / 2^(8k)) % 256`.
pub proof fn lemma_usize_layout(m: usize, k: int)
    requires
        0 <= k < 8,
    ensures
        <usize as BitEncode>::spec_encode(m) is Ok,
        <usize as BitEncode>::spec_encode(m)->Ok_0.len() == 64,
        value_of(<usize as BitEncode>::spec_encode(m)->Ok_0.subrange(8 * k, 8 * k + 8))
            == (m as nat / pow2((8 * k) as nat)) % 256,
{
    lemma_le_bits_byte(m as nat, 8, k);
}

/// An `i8` is 8 bits in two's complement, its bytes least significant
/// first: byte `k` is `(u / 2^(8k)) % 256`, where `u` is `m`, or `m + 2^8`
/// when `m` is negative.
pub proof fn lemma_i8_layout(m: i8, k: int)
    requires
        0 <= k < 1,
    ensures
        <i8 as BitEncode>::spec_encode(m) is Ok,
        <i8 as BitEncode>::spec_encode(m)->Ok_0.len() == 8,
        value_of(<i8 as BitEncode>::spec_encode(m)->Ok_0.subrange(8 * k, 8 * k + 8))
            == ((if m < 0 { m + 0x100int } else { m as int }) as nat / pow2((8 * k) as nat)) % 256,
{
    assert((m as u8) as int == if m < 0 { m + 0x100int } else { m as int }) by (bit_vector);
    lemma_le_bits_byte((m as u8) as nat, 1, k);
}

/// An `i16` is 16 bits in two's complement, its bytes least significant
/// first: byte `k` is `(u / 2^(8k)) % 256`, where `u` is `m`, or `m + 2^16`
/// when `m` is negative.
pub proof fn lemma_i16_layout(m: i16, k: int)
    requires
        0 <= k < 2,
    ensures
        <i16 as BitEncode>::spec_encode(m) is Ok,
        <i16 as BitEncode>::spec_encode(m)->Ok_0.len() == 16,
        value_of(<i16 as BitEncode>::spec_encode(m)->Ok_0.subrange(8 * k, 8 * k + 8))
            == ((if m < 0 { m + 0x1_0000int } else { m as int }) as nat / pow2((8 * k) as nat)) % 256,
{
    assert((m as u16) as int == if m < 0 { m + 0x1_0000int } else { m as int }) by (bit_vector);
    lemma_le_bits_byte((m as u16) as nat, 2, k);
}

/// An `i32` is 32 bits in two's complement, its bytes least significant
/// first: byte `k` is `(u / 2^(8k)) % 256`, where `u` is `m`, or `m + 2^32`
/// when `m` is negative.
pub proof fn lemma_i32_layout(m: i32, k: int)
    requires
        0 <= k < 4,
    ensures
        <i32 as BitEncode>::spec_encode(m) is Ok,
        <i32 as BitEncode>::spec_encode(m)->Ok_0.len() == 32,
        value_of(<i32 as BitEncode>::spec_encode(m)->Ok_0.subrange(8 * k, 8 * k + 8))
            == ((if m < 0 { m + 0x1_0000_0000int } else { m as int }) as nat / pow2((8 * k) as nat)) % 256,
{
    assert((m as u32) as int == if m < 0 { m + 0x1_0000_0000int } else { m as int }) by (bit_vector);
    lemma_le_bits_byte((m as u32) as nat, 4, k);
}

/// An `i64` is 64 bits in two's complement, its bytes least significant
/// first: byte `k` is `(u / 2^(8k)) % 256`, where `u` is `m`, or `m + 2^64`
/// when `m` is negative.
pub proof fn lemma_i64_layout(m: i64, k: int)
    requires
        0 <= k < 8,
    ensures
        <i64 as BitEncode>::spec_encode(m) is Ok,
        <i64 as BitEncode>::spec_encode(m)->Ok_0.len() == 64,
        value_of(<i64 as BitEncode>::spec_encode(m)->Ok_0.subrange(8 * k, 8 * k + 8))
            == ((if m < 0 { m + 0x1_0000_0000_0000_0000int } else { m as int }) as nat / pow2((8 * k) as nat)) % 256,
{
    assert((m as u64) as int == if m < 0 { m + 0x1_0000_0000_0000_0000int } else { m as int }) by (bit_vector);
    lemma_le_bits_byte((m as u64) as nat, 8, k);
}

/// An `i128` is 128 bits in two's complement, its bytes least significant
/// first: byte `k` is `(u / 2^(8k)) % 256`, where `u` is `m`, or `m + 2^128`
/// when `m` is negative.
pub proof fn lemma_i128_layout(m: i128, k: int)
    requires
        0 <= k < 16,
    ensures
        <i128 as BitEncode>::spec_encode(m) is Ok,
        <i128 as BitEncode>::spec_encode(m)->Ok_0.len() == 128,
        value_of(<i128 as BitEncode>::spec_encode(m)->Ok_0.subrange(8 * k, 8 * k + 8))
            == ((if m < 0 { m + 0x1_0000_0000_0000_0000_0000_0000_0000_0000int } else { m as int }) as nat / pow2((8 * k) as nat)) % 256,
{
    assert((m as u128) as int == if m < 0 { m + 0x1_0000_0000_0000_0000_0000_0000_0000_0000int } else { m as int }) by (bit_vector);
    lemma_le_bits_byte((m as u128) as nat, 16, k);
}

/// An `isize` is 64 bits in two's complement, its bytes least significant
/// first: byte `k` is `(u / 2^(8k)) % 256`, where `u` is `m`, or `m + 2^64`
/// when `m` is negative.
pub proof fn lemma_isize_layout(m: isize, k: int)
    requires
        0 <= k < 8,
    ensures
        <isize as BitEncode>::spec_encode(m) is Ok,
        <isize as BitEncode>::spec_encode(m)->Ok_0.len() == 64,
        value_of(<isize as BitEncode>::spec_encode(m)->Ok_0.subrange(8 * k, 8 * k + 8))
            == ((if m < 0 { m + 0x1_0000_0000_0000_0000int } else { m as int }) as nat / pow2((8 * k) as nat)) % 256,
{
    assert((m as i64) as u64 as int == if m < 0 { m + 0x1_0000_0000_0000_0000int } else { m as int }) by (bit_vector);
    lemma_le_bits_byte(((m as i64) as u64) as nat, 8, k);
}


/// A `bool` is one bit, set for `true`; reading takes that one bit.
pub proof fn lemma_bool_layout(b: bool, bits: Seq<bool>)
    ensures
        <bool as BitEncode>::spec_encode(b) == Ok::<Seq<bool>, CodecError>(seq![b]),
        bits.len() >= 1 ==> <bool as BitDecode>::spec_decode(bits) == Ok::<(bool, nat), CodecError>((bits[0], 1)),
{
}

/// A `char` is its code point written as a `u32`.
pub proof fn lemma_char_layout(c: char)
    ensures
        <char as BitEncode>::spec_encode(c) == <u32 as BitEncode>::spec_encode(c as u32),
{
}

/// An `Option` is a presence bit, clear for `None`, set for `Some` and
/// then followed by the value.
pub proof fn lemma_option_layout<T: BitEncode + BitDecode>(x: T::Model, bits: Seq<bool>)
    ensures
        <Option<T> as BitEncode>::spec_encode(None) == Ok::<Seq<bool>, CodecError>(seq![false]),
        T::spec_encode(x) is Ok ==> <Option<T> as BitEncode>::spec_encode(Some(x))
            == Ok::<Seq<bool>, CodecError>(seq![true] + T::spec_encode(x)->Ok_0),
        bits.len() >= 1 && !bits[0] ==> <Option<T> as BitDecode>::spec_decode(bits)
            == Ok::<(Option<T::Model>, nat), CodecError>((None, 1)),
        bits.len() >= 1 && bits[0] && T::spec_decode(bits.skip(1)) is Ok ==> <Option<T> as BitDecode>::spec_decode(bits)
            == Ok::<(Option<T::Model>, nat), CodecError>((Some(T::spec_decode(bits.skip(1))->Ok_0.0), T::spec_decode(bits.skip(1))->Ok_0.1 + 1)),
{
}

/// A `Result` is a bit, set for `Ok` and clear for `Err`, followed by the
/// value it holds.
pub proof fn lemma_result_layout<T: BitEncode + BitDecode, E: BitEncode + BitDecode>(x: T::Model, e: E::Model, bits: Seq<bool>)
    ensures
        T::spec_encode(x) is Ok ==> <Result<T, E> as BitEncode>::spec_encode(Ok(x))
            == Ok::<Seq<bool>, CodecError>(seq![true] + T::spec_encode(x)->Ok_0),
        E::spec_encode(e) is Ok ==> <Result<T, E> as BitEncode>::spec_encode(Err(e))
            == Ok::<Seq<bool>, CodecError>(seq![false] + E::spec_encode(e)->Ok_0),
        bits.len() >= 1 && bits[0] && T::spec_decode(bits.skip(1)) is Ok ==> <Result<T, E> as BitDecode>::spec_decode(bits)
            == Ok::<(Result<T::Model, E::Model>, nat), CodecError>((Ok(T::spec_decode(bits.skip(1))->Ok_0.0), T::spec_decode(bits.skip(1))->Ok_0.1 + 1)),
        bits.len() >= 1 && !bits[0] && E::spec_decode(bits.skip(1)) is Ok ==> <Result<T, E> as BitDecode>::spec_decode(bits)
            == Ok::<(Result<T::Model, E::Model>, nat), CodecError>((Err(E::spec_decode(bits.skip(1))->Ok_0.0), E::spec_decode(bits.skip(1))->Ok_0.1 + 1)),
{
}

/// A `Duration` is its whole seconds as a `u64`, then its nanoseconds as a
/// `u32`; nanoseconds of one billion or more are refused when read.
pub proof fn lemma_duration_layout(secs: u64, nanos: u32, bits: Seq<bool>)
    ensures
        <Duration as BitEncode>::spec_encode((secs, nanos)) == Ok::<Seq<bool>, CodecError>(
            <u64 as BitEncode>::spec_encode(secs)->Ok_0 + <u32 as BitEncode>::spec_encode(nanos)->Ok_0,
        ),
        <u64 as BitDecode>::spec_decode(bits) is Ok && <u32 as BitDecode>::spec_decode(bits.skip(64)) is Ok ==> {
            let s = <u64 as BitDecode>::spec_decode(bits)->Ok_0.0;
            let n = <u32 as BitDecode>::spec_decode(bits.skip(64))->Ok_0.0;
            <Duration as BitDecode>::spec_decode(bits) == if n < 1_000_000_000 {
                Ok::<((u64, u32), nat), CodecError>(((s, n), 96))
            } else {
                Err(CodecError::InvalidNanos)
            }
        },
{
}

/// A string is the length of its UTF-8 bytes as a `VarLen`, then those
/// bytes in order; a `str` and a `Cow<str>` are written the same way.
pub proof fn lemma_text_layout(m: Seq<char>)
    requires
        encode_utf8(m).len() <= u32::MAX,
    ensures
        <String as BitEncode>::spec_encode(m) == Ok::<Seq<bool>, CodecError>(
            <VarLen as BitEncode>::spec_encode(encode_utf8(m).len() as u32)->Ok_0 + byte_bits(encode_utf8(m)),
        ),
        <str as BitEncode>::spec_encode(m) == <String as BitEncode>::spec_encode(m),
        <Cow<'static, str> as BitEncode>::spec_encode(m) == <String as BitEncode>::spec_encode(m),
{
}

/// `Box`, `Rc`, `Arc`, a reference and `Wrapping` add nothing to what they
/// hold: they are written and read as the value inside.
pub proof fn lemma_wrappers_transparent<T: BitEncode + BitDecode>(m: T::Model, bits: Seq<bool>)
    ensures
        <Box<T> as BitEncode>::spec_encode(m) == T::spec_encode(m),
        <Rc<T> as BitEncode>::spec_encode(m) == T::spec_encode(m),
        <Arc<T> as BitEncode>::spec_encode(m) == T::spec_encode(m),
        <&T as BitEncode>::spec_encode(m) == T::spec_encode(m),
        <Wrapping<T> as BitEncode>::spec_encode(m) == T::spec_encode(m),
        <Box<T> as BitDecode>::spec_decode(bits) == T::spec_decode(bits),
        <Rc<T> as BitDecode>::spec_decode(bits) == T::spec_decode(bits),
        <Arc<T> as BitDecode>::spec_decode(bits) == T::spec_decode(bits),
        <Wrapping<T> as BitDecode>::spec_decode(bits) == T::spec_decode(bits),
{
}

/// A `NonZero` is written as the integer inside; reading refuses zero and
/// otherwise reads the integer.
pub proof fn lemma_nonzero_layout<T: ZeroTest + BitEncode + BitDecode>(m: T::Model, bits: Seq<bool>)
    ensures
        <NonZero<T> as BitEncode>::spec_encode(m) == T::spec_encode(m),
        T::spec_decode(bits) is Ok ==> <NonZero<T> as BitDecode>::spec_decode(bits) == if T::spec_is_zero(
            T::spec_decode(bits)->Ok_0.0,
        ) {
            Err::<(T::Model, nat), CodecError>(CodecError::ZeroValue)
        } else {
            T::spec_decode(bits)
        },
{
}

/// A socket address is its address's octets, then its port as a `u16`; the
/// `SocketAddr` enum puts a bit before it, clear for IPv4 and set for IPv6.
pub proof fn lemma_socket_layout(octets: Seq<u8>, port: u16, v6: bool)
    ensures
        <SocketAddrV4 as BitEncode>::spec_encode((octets, port)) == Ok::<Seq<bool>, CodecError>(
            byte_bits(octets) + <u16 as BitEncode>::spec_encode(port)->Ok_0,
        ),
        <SocketAddrV6 as BitEncode>::spec_encode((octets, port)) == Ok::<Seq<bool>, CodecError>(
            byte_bits(octets) + <u16 as BitEncode>::spec_encode(port)->Ok_0,
        ),
        <SocketAddr as BitEncode>::spec_encode((v6, octets, port)) == Ok::<Seq<bool>, CodecError>(
            seq![v6] + if v6 {
                <SocketAddrV6 as BitEncode>::spec_encode((octets, port))->Ok_0
            } else {
                <SocketAddrV4 as BitEncode>::spec_encode((octets, port))->Ok_0
            },
        ),
{
}

/// A `VarLen` is a run of bytes, seven bits of the value in each, least
/// significant group first: the first byte holds `v % 128`, with its top bit
/// set exactly when more of the value follows, and what follows is the
/// `VarLen` of `v / 128`.
pub proof fn lemma_varlen_layout(v: u32)
    ensures
        <VarLen as BitEncode>::spec_encode(v) is Ok,
        <VarLen as BitEncode>::spec_encode(v)->Ok_0.len() >= 8,
        value_of(<VarLen as BitEncode>::spec_encode(v)->Ok_0.take(8)) == if v < 128 {
            v as nat
        } else {
            128 + v as nat % 128
        },
        <VarLen as BitEncode>::spec_encode(v)->Ok_0.skip(8) == if v < 128 {
            Seq::<bool>::empty()
        } else {
            <VarLen as BitEncode>::spec_encode((v / 128) as u32)->Ok_0
        },
{
    let low = (v % 128) as nat;
    let t: bool = v >= 128;
    lemma_bits_of_len(low, 7);
    assert(bits_of(v as nat, 7) == bits_of(low, 7)) by {
        crate::bits::lemma_bits_of_mod(v as nat, 7);
        lemma2_to64();
    }
    let b = <VarLen as BitEncode>::spec_encode(v)->Ok_0;
    assert(b.take(8) =~= seq![t] + bits_of(low, 7));
    crate::bits::lemma_value_of_append(seq![t], bits_of(low, 7));
    lemma_value_of_bits_of(low, 7);
    lemma2_to64();
    assert(value_of(seq![t]) == if t { 1nat } else { 0nat }) by {
        assert(seq![t].drop_last() =~= Seq::<bool>::empty());
        assert(value_of(Seq::<bool>::empty()) == 0);
        assert(seq![t].last() == t);
    }
    vstd::arithmetic::div_mod::lemma_small_mod(low, 128);
    if v >= 128 {
        assert(b.skip(8) =~= varlen_bits((v / 128) as nat));
    } else {
        vstd::arithmetic::div_mod::lemma_small_mod(v as nat, 128);
        assert(b.skip(8) =~= Seq::<bool>::empty());
    }
}

/// An inclusive range is its start, then its end.
pub proof fn lemma_range_inclusive_layout<T: BitEncode>(s: T::Model, e: T::Model)
    requires
        T::spec_encode(s) is Ok,
        T::spec_encode(e) is Ok,
    ensures
        <RangeInclusive<T> as BitEncode>::spec_encode((s, e)) == Ok::<Seq<bool>, CodecError>(
            T::spec_encode(s)->Ok_0 + T::spec_encode(e)->Ok_0,
        ),
{
}

/// A set of integer keys, ordered or hashed, is written as the `Vec` of its
/// keys in increasing order; a map, as the `Vec` of its entries in increasing
/// order of their keys.
pub proof fn lemma_keyed_layout<K: IntKey, V: BitEncode>(s: Set<K>, m: Map<K, V::Model>)
    requires
        s.finite(),
        m.dom().finite(),
    ensures
        increasing(sorted_keys(s)),
        sorted_keys(s).to_set() == s,
        <BTreeSet<K> as BitEncode>::spec_encode(s) == <Vec<K> as BitEncode>::spec_encode(sorted_keys(s)),
        <HashSet<K> as BitEncode>::spec_encode(s) == <Vec<K> as BitEncode>::spec_encode(sorted_keys(s)),
        increasing(sorted_keys(m.dom())),
        sorted_keys(m.dom()).to_set() == m.dom(),
        <BTreeMap<K, V> as BitEncode>::spec_encode(m) == <Vec<(K, V)> as BitEncode>::spec_encode(
            sorted_keys(m.dom()).map_values(|k: K| (k, m[k])),
        ),
        <HashMap<K, V> as BitEncode>::spec_encode(m) == <Vec<(K, V)> as BitEncode>::spec_encode(
            sorted_keys(m.dom()).map_values(|k: K| (k, m[k])),
        ),
{
    lemma_sorted_keys_exist(s);
    lemma_sorted_keys_exist(m.dom());
}

/// A `CountedSeq` is refused when its length does not fit the header type;
/// otherwise it is the header holding the length, then the items one after
/// another in order, each where `lemma_items_in_order` places it.
pub proof fn lemma_counted_layout<H: LenHeader, T: BitEncode>(ms: Seq<T::Model>)
    requires
        forall|j: int| 0 <= j < ms.len() ==> (#[trigger] T::spec_encode(ms[j])) is Ok,
    ensures
        H::spec_from_len(ms.len()) is None ==> <CountedSeq<H, T> as BitEncode>::spec_encode(ms)
            == Err::<Seq<bool>, CodecError>(CodecError::LengthOverflow),
        H::spec_from_len(ms.len()) matches Some(h) ==> (H::spec_encode(h.model()) is Ok ==> <CountedSeq<H, T> as BitEncode>::spec_encode(ms)
            == Ok::<Seq<bool>, CodecError>(H::spec_encode(h.model())->Ok_0 + encode_all::<T>(ms)->Ok_0)),
{
    lemma_items_in_order::<T>(ms, 0);
}

/// A slice and a `Cow` of a slice are written as a `Vec` with the same items,
/// and a `Cow` of a slice is read as one.
pub proof fn lemma_slices_as_vec<T: Clone + BitEncode + BitDecode>(ms: Seq<T::Model>, bits: Seq<bool>)
    ensures
        <[T] as BitEncode>::spec_encode(ms) == <Vec<T> as BitEncode>::spec_encode(ms),
        <Cow<'static, [T]> as BitEncode>::spec_encode(ms) == <Vec<T> as BitEncode>::spec_encode(ms),
        <Cow<'static, [T]> as BitDecode>::spec_decode(bits) == <Vec<T> as BitDecode>::spec_decode(bits),
{
}

/// A tuple of one is its field; the unit value and a `PhantomData` take no
/// bits at all.
pub proof fn lemma_small_tuples_layout<A: BitEncode + BitDecode, T>(m: A::Model, bits: Seq<bool>)
    ensures
        <(A,) as BitEncode>::spec_encode((m,)) == A::spec_encode(m),
        A::spec_decode(bits) is Ok ==> <(A,) as BitDecode>::spec_decode(bits)
            == Ok::<((A::Model,), nat), CodecError>(((A::spec_decode(bits)->Ok_0.0,), A::spec_decode(bits)->Ok_0.1)),
        <() as BitEncode>::spec_encode(()) == Ok::<Seq<bool>, CodecError>(Seq::empty()),
        <() as BitDecode>::spec_decode(bits) == Ok::<((), nat), CodecError>(((), 0)),
        <PhantomData<T> as BitEncode>::spec_encode(()) == Ok::<Seq<bool>, CodecError>(Seq::empty()),
        <PhantomData<T> as BitDecode>::spec_decode(bits) == Ok::<((), nat), CodecError>(((), 0)),
{
}

} // verus!
