//! Codecs for integers, `bool` and `char`: fixed-width integers travel as
//! little-endian bytes, a `bool` as one bit.
use vstd::prelude::*;

verus! {

use vstd::arithmetic::power2::{pow2, lemma2_to64};
use crate::bits::{bits_of, lemma_byte_bits_len};
use crate::codec::{Modeled, RoundTrip};
use crate::dec::{BitDecode, BitReader, lemma_consumed_skip};
use crate::enc::{BitEncode, BitWriter};
use crate::error::CodecError;
use crate::le::{le_bits, le_parse, le_seq, write_le, read_le, lemma_le_seq_len, lemma_le_value_le_seq, lemma_bytes_of_byte_bits};
use crate::primitive::lemma_bit_widths;

/// Decoding the encoding of an `n`-byte integer `v` gives `v` back.
pub proof fn lemma_le_round_trip(v: nat, n: nat, rest: Seq<bool>)
    requires
        v < pow2(8 * n),
    ensures
        le_bits(v, n).len() == 8 * n,
        le_parse(le_bits(v, n) + rest, n) == Ok::<(nat, nat), CodecError>((v, 8 * n)),
{
    lemma_le_seq_len(v, n);
    lemma_byte_bits_len(le_seq(v, n));
    let b = le_bits(v, n);
    assert((b + rest).take(8 * n as int) =~= b);
    lemma_bytes_of_byte_bits(le_seq(v, n));
    lemma_le_value_le_seq(v, n);
    vstd::arithmetic::div_mod::lemma_small_mod(v, pow2(8 * n));
}

impl Modeled for u8 {
    type Model = u8;

    open spec fn model(&self) -> u8 {
        *self
    }
}

impl BitEncode for u8 {
    open spec fn spec_encode(m: u8) -> Result<Seq<bool>, CodecError> {
        Ok(le_bits(m as nat, 1))
    }

    fn encode(&self, w: &mut BitWriter) -> (res: Result<(), CodecError>) {
        write_le(w, *self as u128, 1)
    }
}

impl BitDecode for u8 {
    open spec fn spec_decode(bits: Seq<bool>) -> Result<(u8, nat), CodecError> {
        match le_parse(bits, 1) {
            Ok((v, k)) => Ok((v as u8, k)),
            Err(e) => Err(e),
        }
    }

    fn decode(r: &mut BitReader) -> (res: Result<Self, CodecError>) {
        match read_le(r, 1) {
            Ok(v) => {
                proof {
                    lemma2_to64();
                    crate::primitive::lemma_u128_pow2_top();
                }
                Ok(v as u8)
            },
            Err(e) => {
                proof {
                    assert(old(r).remaining().skip(old(r).remaining().len() as int) =~= Seq::<bool>::empty());
                }
                Err(e)
            },
        }
    }
}

impl RoundTrip for u8 {
    open spec fn spec_round_trips(m: u8) -> bool {
        true
    }

    proof fn lemma_round_trip(x: &Self, rest: Seq<bool>) {
        lemma2_to64();
        crate::primitive::lemma_u128_pow2_top();
        lemma_le_round_trip(*x as nat, 1, rest);
    }
}

impl Modeled for u16 {
    type Model = u16;

    open spec fn model(&self) -> u16 {
        *self
    }
}

impl BitEncode for u16 {
    open spec fn spec_encode(m: u16) -> Result<Seq<bool>, CodecError> {
        Ok(le_bits(m as nat, 2))
    }

    fn encode(&self, w: &mut BitWriter) -> (res: Result<(), CodecError>) {
        write_le(w, *self as u128, 2)
    }
}

impl BitDecode for u16 {
    open spec fn spec_decode(bits: Seq<bool>) -> Result<(u16, nat), CodecError> {
        match le_parse(bits, 2) {
            Ok((v, k)) => Ok((v as u16, k)),
            Err(e) => Err(e),
        }
    }

    fn decode(r: &mut BitReader) -> (res: Result<Self, CodecError>) {
        match read_le(r, 2) {
            Ok(v) => {
                proof {
                    lemma2_to64();
                    crate::primitive::lemma_u128_pow2_top();
                }
                Ok(v as u16)
            },
            Err(e) => {
                proof {
                    assert(old(r).remaining().skip(old(r).remaining().len() as int) =~= Seq::<bool>::empty());
                }
                Err(e)
            },
        }
    }
}

impl RoundTrip for u16 {
    open spec fn spec_round_trips(m: u16) -> bool {
        true
    }

    proof fn lemma_round_trip(x: &Self, rest: Seq<bool>) {
        lemma2_to64();
        crate::primitive::lemma_u128_pow2_top();
        lemma_le_round_trip(*x as nat, 2, rest);
    }
}

impl Modeled for u32 {
    type Model = u32;

    open spec fn model(&self) -> u32 {
        *self
    }
}

impl BitEncode for u32 {
    open spec fn spec_encode(m: u32) -> Result<Seq<bool>, CodecError> {
        Ok(le_bits(m as nat, 4))
    }

    fn encode(&self, w: &mut BitWriter) -> (res: Result<(), CodecError>) {
        write_le(w, *self as u128, 4)
    }
}

impl BitDecode for u32 {
    open spec fn spec_decode(bits: Seq<bool>) -> Result<(u32, nat), CodecError> {
        match le_parse(bits, 4) {
            Ok((v, k)) => Ok((v as u32, k)),
            Err(e) => Err(e),
        }
    }

    fn decode(r: &mut BitReader) -> (res: Result<Self, CodecError>) {
        match read_le(r, 4) {
            Ok(v) => {
                proof {
                    lemma2_to64();
                    crate::primitive::lemma_u128_pow2_top();
                }
                Ok(v as u32)
            },
            Err(e) => {
                proof {
                    assert(old(r).remaining().skip(old(r).remaining().len() as int) =~= Seq::<bool>::empty());
                }
                Err(e)
            },
        }
    }
}

impl RoundTrip for u32 {
    open spec fn spec_round_trips(m: u32) -> bool {
        true
    }

    proof fn lemma_round_trip(x: &Self, rest: Seq<bool>) {
        lemma2_to64();
        crate::primitive::lemma_u128_pow2_top();
        lemma_le_round_trip(*x as nat, 4, rest);
    }
}

impl Modeled for u64 {
    type Model = u64;

    open spec fn model(&self) -> u64 {
        *self
    }
}

impl BitEncode for u64 {
    open spec fn spec_encode(m: u64) -> Result<Seq<bool>, CodecError> {
        Ok(le_bits(m as nat, 8))
    }

    fn encode(&self, w: &mut BitWriter) -> (res: Result<(), CodecError>) {
        write_le(w, *self as u128, 8)
    }
}

impl BitDecode for u64 {
    open spec fn spec_decode(bits: Seq<bool>) -> Result<(u64, nat), CodecError> {
        match le_parse(bits, 8) {
            Ok((v, k)) => Ok((v as u64, k)),
            Err(e) => Err(e),
        }
    }

    fn decode(r: &mut BitReader) -> (res: Result<Self, CodecError>) {
        match read_le(r, 8) {
            Ok(v) => {
                proof {
                    lemma2_to64();
                    crate::primitive::lemma_u128_pow2_top();
                }
                Ok(v as u64)
            },
            Err(e) => {
                proof {
                    assert(old(r).remaining().skip(old(r).remaining().len() as int) =~= Seq::<bool>::empty());
                }
                Err(e)
            },
        }
    }
}

impl RoundTrip for u64 {
    open spec fn spec_round_trips(m: u64) -> bool {
        true
    }

    proof fn lemma_round_trip(x: &Self, rest: Seq<bool>) {
        lemma2_to64();
        crate::primitive::lemma_u128_pow2_top();
        lemma_le_round_trip(*x as nat, 8, rest);
    }
}

impl Modeled for u128 {
    type Model = u128;

    open spec fn model(&self) -> u128 {
        *self
    }
}

impl BitEncode for u128 {
    open spec fn spec_encode(m: u128) -> Result<Seq<bool>, CodecError> {
        Ok(le_bits(m as nat, 16))
    }

    fn encode(&self, w: &mut BitWriter) -> (res: Result<(), CodecError>) {
        write_le(w, *self, 16)
    }
}

impl BitDecode for u128 {
    open spec fn spec_decode(bits: Seq<bool>) -> Result<(u128, nat), CodecError> {
        match le_parse(bits, 16) {
            Ok((v, k)) => Ok((v as u128, k)),
            Err(e) => Err(e),
        }
    }

    fn decode(r: &mut BitReader) -> (res: Result<Self, CodecError>) {
        match read_le(r, 16) {
            Ok(v) => {
                proof {
                    lemma2_to64();
                    crate::primitive::lemma_u128_pow2_top();
                }
                Ok(v as u128)
            },
            Err(e) => {
                proof {
                    assert(old(r).remaining().skip(old(r).remaining().len() as int) =~= Seq::<bool>::empty());
                }
                Err(e)
            },
        }
    }
}

impl RoundTrip for u128 {
    open spec fn spec_round_trips(m: u128) -> bool {
        true
    }

    proof fn lemma_round_trip(x: &Self, rest: Seq<bool>) {
        lemma2_to64();
        crate::primitive::lemma_u128_pow2_top();
        lemma_le_round_trip(*x as nat, 16, rest);
    }
}

impl Modeled for i8 {
    type Model = i8;

    open spec fn model(&self) -> i8 {
        *self
    }
}

impl BitEncode for i8 {
    /// Two's complement, as the unsigned integer of the same width.
    open spec fn spec_encode(m: i8) -> Result<Seq<bool>, CodecError> {
        Ok(le_bits((m as u8) as nat, 1))
    }

    fn encode(&self, w: &mut BitWriter) -> (res: Result<(), CodecError>) {
        write_le(w, (*self as u8) as u128, 1)
    }
}

impl BitDecode for i8 {
    open spec fn spec_decode(bits: Seq<bool>) -> Result<(i8, nat), CodecError> {
        match le_parse(bits, 1) {
            Ok((v, k)) => Ok(((v as u8) as i8, k)),
            Err(e) => Err(e),
        }
    }

    fn decode(r: &mut BitReader) -> (res: Result<Self, CodecError>) {
        match read_le(r, 1) {
            Ok(v) => {
                proof {
                    lemma2_to64();
                    crate::primitive::lemma_u128_pow2_top();
                }
                Ok((v as u8) as i8)
            },
            Err(e) => {
                proof {
                    assert(old(r).remaining().skip(old(r).remaining().len() as int) =~= Seq::<bool>::empty());
                }
                Err(e)
            },
        }
    }
}

impl RoundTrip for i8 {
    open spec fn spec_round_trips(m: i8) -> bool {
        true
    }

    proof fn lemma_round_trip(x: &Self, rest: Seq<bool>) {
        lemma2_to64();
        crate::primitive::lemma_u128_pow2_top();
        let v = *x;
        lemma_le_round_trip((v as u8) as nat, 1, rest);
        assert(((v as u8) as u8) as i8 == v) by (bit_vector);
    }
}

impl Modeled for i16 {
    type Model = i16;

    open spec fn model(&self) -> i16 {
        *self
    }
}

impl BitEncode for i16 {
    /// Two's complement, as the unsigned integer of the same width.
    open spec fn spec_encode(m: i16) -> Result<Seq<bool>, CodecError> {
        Ok(le_bits((m as u16) as nat, 2))
    }

    fn encode(&self, w: &mut BitWriter) -> (res: Result<(), CodecError>) {
        write_le(w, (*self as u16) as u128, 2)
    }
}

impl BitDecode for i16 {
    open spec fn spec_decode(bits: Seq<bool>) -> Result<(i16, nat), CodecError> {
        match le_parse(bits, 2) {
            Ok((v, k)) => Ok(((v as u16) as i16, k)),
            Err(e) => Err(e),
        }
    }

    fn decode(r: &mut BitReader) -> (res: Result<Self, CodecError>) {
        match read_le(r, 2) {
            Ok(v) => {
                proof {
                    lemma2_to64();
                    crate::primitive::lemma_u128_pow2_top();
                }
                Ok((v as u16) as i16)
            },
            Err(e) => {
                proof {
                    assert(old(r).remaining().skip(old(r).remaining().len() as int) =~= Seq::<bool>::empty());
                }
                Err(e)
            },
        }
    }
}

impl RoundTrip for i16 {
    open spec fn spec_round_trips(m: i16) -> bool {
        true
    }

    proof fn lemma_round_trip(x: &Self, rest: Seq<bool>) {
        lemma2_to64();
        crate::primitive::lemma_u128_pow2_top();
        let v = *x;
        lemma_le_round_trip((v as u16) as nat, 2, rest);
        assert(((v as u16) as u16) as i16 == v) by (bit_vector);
    }
}

impl Modeled for i32 {
    type Model = i32;

    open spec fn model(&self) -> i32 {
        *self
    }
}

impl BitEncode for i32 {
    /// Two's complement, as the unsigned integer of the same width.
    open spec fn spec_encode(m: i32) -> Result<Seq<bool>, CodecError> {
        Ok(le_bits((m as u32) as nat, 4))
    }

    fn encode(&self, w: &mut BitWriter) -> (res: Result<(), CodecError>) {
        write_le(w, (*self as u32) as u128, 4)
    }
}

impl BitDecode for i32 {
    open spec fn spec_decode(bits: Seq<bool>) -> Result<(i32, nat), CodecError> {
        match le_parse(bits, 4) {
            Ok((v, k)) => Ok(((v as u32) as i32, k)),
            Err(e) => Err(e),
        }
    }

    fn decode(r: &mut BitReader) -> (res: Result<Self, CodecError>) {
        match read_le(r, 4) {
            Ok(v) => {
                proof {
                    lemma2_to64();
                    crate::primitive::lemma_u128_pow2_top();
                }
                Ok((v as u32) as i32)
            },
            Err(e) => {
                proof {
                    assert(old(r).remaining().skip(old(r).remaining().len() as int) =~= Seq::<bool>::empty());
                }
                Err(e)
            },
        }
    }
}

impl RoundTrip for i32 {
    open spec fn spec_round_trips(m: i32) -> bool {
        true
    }

    proof fn lemma_round_trip(x: &Self, rest: Seq<bool>) {
        lemma2_to64();
        crate::primitive::lemma_u128_pow2_top();
        let v = *x;
        lemma_le_round_trip((v as u32) as nat, 4, rest);
        assert(((v as u32) as u32) as i32 == v) by (bit_vector);
    }
}

impl Modeled for i64 {
    type Model = i64;

    open spec fn model(&self) -> i64 {
        *self
    }
}

impl BitEncode for i64 {
    /// Two's complement, as the unsigned integer of the same width.
    open spec fn spec_encode(m: i64) -> Result<Seq<bool>, CodecError> {
        Ok(le_bits((m as u64) as nat, 8))
    }

    fn encode(&self, w: &mut BitWriter) -> (res: Result<(), CodecError>) {
        write_le(w, (*self as u64) as u128, 8)
    }
}

impl BitDecode for i64 {
    open spec fn spec_decode(bits: Seq<bool>) -> Result<(i64, nat), CodecError> {
        match le_parse(bits, 8) {
            Ok((v, k)) => Ok(((v as u64) as i64, k)),
            Err(e) => Err(e),
        }
    }

    fn decode(r: &mut BitReader) -> (res: Result<Self, CodecError>) {
        match read_le(r, 8) {
            Ok(v) => {
                proof {
                    lemma2_to64();
                    crate::primitive::lemma_u128_pow2_top();
                }
                Ok((v as u64) as i64)
            },
            Err(e) => {
                proof {
                    assert(old(r).remaining().skip(old(r).remaining().len() as int) =~= Seq::<bool>::empty());
                }
                Err(e)
            },
        }
    }
}

impl RoundTrip for i64 {
    open spec fn spec_round_trips(m: i64) -> bool {
        true
    }

    proof fn lemma_round_trip(x: &Self, rest: Seq<bool>) {
        lemma2_to64();
        crate::primitive::lemma_u128_pow2_top();
        let v = *x;
        lemma_le_round_trip((v as u64) as nat, 8, rest);
        assert(((v as u64) as u64) as i64 == v) by (bit_vector);
    }
}

impl Modeled for i128 {
    type Model = i128;

    open spec fn model(&self) -> i128 {
        *self
    }
}

impl BitEncode for i128 {
    /// Two's complement, as the unsigned integer of the same width.
    open spec fn spec_encode(m: i128) -> Result<Seq<bool>, CodecError> {
        Ok(le_bits((m as u128) as nat, 16))
    }

    fn encode(&self, w: &mut BitWriter) -> (res: Result<(), CodecError>) {
        write_le(w, (*self as u128), 16)
    }
}

impl BitDecode for i128 {
    open spec fn spec_decode(bits: Seq<bool>) -> Result<(i128, nat), CodecError> {
        match le_parse(bits, 16) {
            Ok((v, k)) => Ok(((v as u128) as i128, k)),
            Err(e) => Err(e),
        }
    }

    fn decode(r: &mut BitReader) -> (res: Result<Self, CodecError>) {
        match read_le(r, 16) {
            Ok(v) => {
                proof {
                    lemma2_to64();
                    crate::primitive::lemma_u128_pow2_top();
                }
                Ok((v as u128) as i128)
            },
            Err(e) => {
                proof {
                    assert(old(r).remaining().skip(old(r).remaining().len() as int) =~= Seq::<bool>::empty());
                }
                Err(e)
            },
        }
    }
}

impl RoundTrip for i128 {
    open spec fn spec_round_trips(m: i128) -> bool {
        true
    }

    proof fn lemma_round_trip(x: &Self, rest: Seq<bool>) {
        lemma2_to64();
        crate::primitive::lemma_u128_pow2_top();
        let v = *x;
        lemma_le_round_trip((v as u128) as nat, 16, rest);
        assert(((v as u128) as u128) as i128 == v) by (bit_vector);
    }
}

impl Modeled for usize {
    type Model = usize;

    open spec fn model(&self) -> usize {
        *self
    }
}

impl BitEncode for usize {
    /// Always eight bytes, as a `u64`.
    open spec fn spec_encode(m: usize) -> Result<Seq<bool>, CodecError> {
        Ok(le_bits(m as nat, 8))
    }

    fn encode(&self, w: &mut BitWriter) -> (res: Result<(), CodecError>) {
        (*self as u64).encode(w)
    }
}

impl BitDecode for usize {
    /// Eight bytes, refused when the value does not fit the platform's `usize`.
    open spec fn spec_decode(bits: Seq<bool>) -> Result<(usize, nat), CodecError> {
        match le_parse(bits, 8) {
            Ok((v, k)) => if v <= usize::MAX {
                Ok((v as usize, k))
            } else {
                Err(CodecError::IntOverflow)
            },
            Err(e) => Err(e),
        }
    }

    fn decode(r: &mut BitReader) -> (res: Result<Self, CodecError>) {
        let ghost start = r.remaining();
        let val = u64::decode(r)?;
        proof {
            lemma2_to64();
            lemma_consumed_skip(start, 64);
            crate::le::lemma_le_parse_bound(start, 8);
        }
        if val as u128 <= usize::MAX as u128 {
            Ok(val as usize)
        } else {
            Err(CodecError::IntOverflow)
        }
    }
}

impl RoundTrip for usize {
    open spec fn spec_round_trips(m: usize) -> bool {
        true
    }

    proof fn lemma_round_trip(x: &Self, rest: Seq<bool>) {
        lemma2_to64();
        lemma_le_round_trip(*x as nat, 8, rest);
    }
}

impl Modeled for isize {
    type Model = isize;

    open spec fn model(&self) -> isize {
        *self
    }
}

impl BitEncode for isize {
    /// Always eight bytes, as an `i64`.
    open spec fn spec_encode(m: isize) -> Result<Seq<bool>, CodecError> {
        Ok(le_bits(((m as i64) as u64) as nat, 8))
    }

    fn encode(&self, w: &mut BitWriter) -> (res: Result<(), CodecError>) {
        (*self as i64).encode(w)
    }
}

impl BitDecode for isize {
    /// Eight bytes, refused when the value does not fit the platform's `isize`.
    open spec fn spec_decode(bits: Seq<bool>) -> Result<(isize, nat), CodecError> {
        match le_parse(bits, 8) {
            Ok((v, k)) => {
                let x = (v as u64) as i64;
                if isize::MIN <= x <= isize::MAX {
                    Ok((x as isize, k))
                } else {
                    Err(CodecError::IntOverflow)
                }
            },
            Err(e) => Err(e),
        }
    }

    fn decode(r: &mut BitReader) -> (res: Result<Self, CodecError>) {
        let ghost start = r.remaining();
        let val = i64::decode(r)?;
        proof {
            lemma_consumed_skip(start, 64);
            crate::le::lemma_le_parse_bound(start, 8);
        }
        if isize::MIN as i64 <= val && val <= isize::MAX as i64 {
            Ok(val as isize)
        } else {
            Err(CodecError::IntOverflow)
        }
    }
}

impl RoundTrip for isize {
    open spec fn spec_round_trips(m: isize) -> bool {
        true
    }

    proof fn lemma_round_trip(x: &Self, rest: Seq<bool>) {
        lemma2_to64();
        let v = *x;
        lemma_le_round_trip(((v as i64) as u64) as nat, 8, rest);
        assert(((v as i64) as u64) as i64 == v as i64) by (bit_vector);
    }
}

impl Modeled for bool {
    type Model = bool;

    open spec fn model(&self) -> bool {
        *self
    }
}

impl BitEncode for bool {
    /// A single bit.
    open spec fn spec_encode(m: bool) -> Result<Seq<bool>, CodecError> {
        Ok(seq![m])
    }

    fn encode(&self, w: &mut BitWriter) -> (res: Result<(), CodecError>) {
        proof {
            lemma_bit_widths();
            assert(bits_of(0, 0) == Seq::<bool>::empty());
            assert(bits_of(if *self { 1nat } else { 0nat }, 1) =~= seq![*self]);
        }
        w.write_bits(*self as u8, 1)
    }
}

impl BitDecode for bool {
    open spec fn spec_decode(bits: Seq<bool>) -> Result<(bool, nat), CodecError> {
        if bits.len() < 1 {
            Err(CodecError::UnexpectedEof)
        } else {
            Ok((bits[0], 1))
        }
    }

    fn decode(r: &mut BitReader) -> (res: Result<Self, CodecError>) {
        proof {
            lemma_bit_widths();
        }
        let ghost start = r.remaining();
        match r.read_bits::<u8>(1) {
            Ok(b) => {
                proof {
                    let one = start.take(1);
                    assert(one.drop_last() =~= Seq::<bool>::empty());
                    assert(one.last() == start[0]);
                    assert(crate::bits::value_of(Seq::<bool>::empty()) == 0);
                    assert(b as nat == crate::bits::value_of(one));
                }
                Ok(b != 0)
            },
            Err(e) => {
                proof {
                    assert(start.skip(start.len() as int) =~= Seq::<bool>::empty());
                }
                Err(e)
            },
        }
    }
}

impl RoundTrip for bool {
    open spec fn spec_round_trips(m: bool) -> bool {
        true
    }

    proof fn lemma_round_trip(x: &Self, rest: Seq<bool>) {
        assert((seq![*x] + rest)[0] == *x);
    }
}

/// Whether `code` is a Unicode scalar value, the range of `char`.
pub open spec fn is_code_point(code: u32) -> bool {
    code <= 0xD7FF || (0xE000 <= code && code <= 0x10FFFF)
}

/// `char::from_u32`, which gives the `char` for a Unicode scalar value and
/// `None` for a surrogate or a number above `0x10FFFF`.
#[verifier::external_body]
fn char_from_u32(code: u32) -> (r: Option<char>)
    ensures
        r is Some <==> is_code_point(code),
        r matches Some(c) ==> c as u32 == code,
{
    char::from_u32(code)
}

impl Modeled for char {
    type Model = char;

    open spec fn model(&self) -> char {
        *self
    }
}

impl BitEncode for char {
    /// The code point, as a `u32`.
    open spec fn spec_encode(m: char) -> Result<Seq<bool>, CodecError> {
        Ok(le_bits((m as u32) as nat, 4))
    }

    fn encode(&self, w: &mut BitWriter) -> (res: Result<(), CodecError>) {
        (*self as u32).encode(w)
    }
}

impl BitDecode for char {
    /// A `u32`, refused unless it is a Unicode scalar value.
    open spec fn spec_decode(bits: Seq<bool>) -> Result<(char, nat), CodecError> {
        match le_parse(bits, 4) {
            Ok((v, k)) => if is_code_point(v as u32) {
                Ok(((v as u32) as char, k))
            } else {
                Err(CodecError::InvalidChar)
            },
            Err(e) => Err(e),
        }
    }

    fn decode(r: &mut BitReader) -> (res: Result<Self, CodecError>) {
        let ghost start = r.remaining();
        let code = u32::decode(r)?;
        proof {
            lemma_consumed_skip(start, 32);
            crate::le::lemma_le_parse_bound(start, 4);
        }
        match char_from_u32(code) {
            Some(c) => {
                proof {
                    vstd::utf8::char_u32_cast(c, code);
                }
                Ok(c)
            },
            None => Err(CodecError::InvalidChar),
        }
    }
}

impl RoundTrip for char {
    open spec fn spec_round_trips(m: char) -> bool {
        true
    }

    proof fn lemma_round_trip(x: &Self, rest: Seq<bool>) {
        lemma2_to64();
        let c = *x;
        lemma_le_round_trip((c as u32) as nat, 4, rest);
        vstd::utf8::char_is_scalar(c);
        vstd::utf8::char_u32_cast(c, c as u32);
    }
}

} // verus!
