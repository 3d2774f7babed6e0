//! Little-endian byte strings: how fixed-width integers travel.
use vstd::prelude::*;

verus! {

use vstd::arithmetic::power2::{pow2, lemma_pow2_pos, lemma_pow2_adds, lemma2_to64};
use crate::bits::{bits_of, value_of, byte_bits, lemma_bits_of_len, lemma_value_of_bits_of, lemma_byte_bits_first, lemma_byte_bits_len};
use crate::dec::BitReader;
use crate::enc::BitWriter;
use crate::error::CodecError;

/// The low `n` bytes of `v`, least significant first.
pub open spec fn le_seq(v: nat, n: nat) -> Seq<u8>
    decreases n,
{
    if n == 0 {
        Seq::empty()
    } else {
        seq![(v % 256) as u8] + le_seq(v / 256, (n - 1) as nat)
    }
}

/// The number a little-endian byte string denotes.
pub open spec fn le_value(bytes: Seq<u8>) -> nat
    decreases bytes.len(),
{
    if bytes.len() == 0 {
        0
    } else {
        bytes[0] as nat + 256 * le_value(bytes.drop_first())
    }
}

/// The bytes that a bit string spells, eight bits to a byte; a tail shorter
/// than a byte is dropped.
pub open spec fn bytes_of_bits(bits: Seq<bool>) -> Seq<u8>
    decreases bits.len(),
{
    if bits.len() < 8 {
        Seq::empty()
    } else {
        seq![value_of(bits.take(8)) as u8] + bytes_of_bits(bits.skip(8))
    }
}

/// The bits of an `n`-byte little-endian integer.
pub open spec fn le_bits(v: nat, n: nat) -> Seq<bool> {
    byte_bits(le_seq(v, n))
}

/// Reading an `n`-byte little-endian integer: its value and the bits it takes.
pub open spec fn le_parse(bits: Seq<bool>, n: nat) -> Result<(nat, nat), CodecError> {
    if bits.len() < 8 * n {
        Err(CodecError::UnexpectedEof)
    } else {
        Ok((le_value(bytes_of_bits(bits.take(8 * n as int))), 8 * n))
    }
}

pub proof fn lemma_le_seq_len(v: nat, n: nat)
    ensures
        le_seq(v, n).len() == n,
    decreases n,
{
    if n > 0 {
        lemma_le_seq_len(v / 256, (n - 1) as nat);
    }
}

/// The `n` low bytes denote the value modulo `2^(8n)`.
pub proof fn lemma_le_value_le_seq(v: nat, n: nat)
    ensures
        le_value(le_seq(v, n)) == v % pow2(8 * n),
    decreases n,
{
    lemma2_to64();
    lemma_pow2_pos(8 * n);
    if n == 0 {
    } else {
        let s = le_seq(v, n);
        lemma_le_seq_len(v, n);
        assert(s.drop_first() =~= le_seq(v / 256, (n - 1) as nat));
        lemma_le_value_le_seq(v / 256, (n - 1) as nat);
        lemma_pow2_adds(8, 8 * (n - 1) as nat);
        lemma_pow2_pos(8 * (n - 1) as nat);
        assert(8 + 8 * (n - 1) as nat == 8 * n);
        vstd::arithmetic::div_mod::lemma_mod_breakdown(v as int, 256, pow2(8 * (n - 1) as nat) as int);
    }
}

/// A little-endian byte string denotes a number below `2^(8 len)`.
pub proof fn lemma_le_value_bound(bytes: Seq<u8>)
    ensures
        le_value(bytes) < pow2(8 * bytes.len()),
    decreases bytes.len(),
{
    lemma2_to64();
    lemma_pow2_pos(8 * bytes.len());
    if bytes.len() > 0 {
        let n = bytes.len();
        lemma_le_value_bound(bytes.drop_first());
        lemma_pow2_adds(8, 8 * (n - 1) as nat);
        assert(8 + 8 * (n - 1) as nat == 8 * n);
        let p = pow2(8 * (n - 1) as nat);
        assert(bytes[0] + 256 * le_value(bytes.drop_first()) < 256 * p) by (nonlinear_arith)
            requires
                bytes[0] < 256,
                le_value(bytes.drop_first()) + 1 <= p,
        {
            assert(256 * (le_value(bytes.drop_first()) + 1) <= 256 * p);
        }
    }
}

/// Spelling out a byte string's bits and reading the bytes back gives it.
pub proof fn lemma_bytes_of_byte_bits(bytes: Seq<u8>)
    ensures
        bytes_of_bits(byte_bits(bytes)) == bytes,
    decreases bytes.len(),
{
    lemma_byte_bits_len(bytes);
    if bytes.len() > 0 {
        let b = byte_bits(bytes);
        lemma_byte_bits_first(bytes);
        lemma_bits_of_len(bytes[0] as nat, 8);
        lemma_byte_bits_len(bytes.drop_first());
        assert(b.take(8) =~= bits_of(bytes[0] as nat, 8));
        assert(b.skip(8) =~= byte_bits(bytes.drop_first()));
        lemma_value_of_bits_of(bytes[0] as nat, 8);
        lemma2_to64();
        lemma_bytes_of_byte_bits(bytes.drop_first());
        assert(bytes_of_bits(b) =~= bytes);
    } else {
        assert(bytes_of_bits(byte_bits(bytes)) =~= bytes);
    }
}

/// Two byte strings with the same bits are the same.
pub proof fn lemma_byte_bits_injective(a: Seq<u8>, b: Seq<u8>)
    requires
        byte_bits(a) == byte_bits(b),
    ensures
        a == b,
{
    lemma_bytes_of_byte_bits(a);
    lemma_bytes_of_byte_bits(b);
}

/// What an `n`-byte read yields lies below `2^(8n)` and takes `8n` bits.
pub proof fn lemma_le_parse_bound(bits: Seq<bool>, n: nat)
    ensures
        le_parse(bits, n) matches Ok((v, k)) ==> v < pow2(8 * n) && k == 8 * n && k <= bits.len(),
{
    if bits.len() >= 8 * n {
        lemma_bytes_of_bits_len(bits.take(8 * n as int));
        lemma_le_value_bound(bytes_of_bits(bits.take(8 * n as int)));
    }
}

/// A bit string spells one byte per eight bits.
pub proof fn lemma_bytes_of_bits_len(bits: Seq<bool>)
    ensures
        bytes_of_bits(bits).len() == bits.len() / 8,
    decreases bits.len(),
{
    if bits.len() >= 8 {
        lemma_bytes_of_bits_len(bits.skip(8));
    }
}

/// The little-endian bytes of `v`.
fn le_bytes(v: u128, n: usize) -> (r: Vec<u8>)
    requires
        n <= 16,
    ensures
        r@ == le_seq(v as nat, n as nat),
{
    let mut out: Vec<u8> = Vec::new();
    let mut x = v;
    let mut i: usize = 0;
    proof {
        lemma2_to64();
        assert(out@ + le_seq(x as nat, n as nat) =~= le_seq(v as nat, n as nat));
    }
    while i < n
        invariant
            i <= n <= 16,
            out@ + le_seq(x as nat, (n - i) as nat) == le_seq(v as nat, n as nat),
        decreases n - i,
    {
        let ghost before = le_seq(x as nat, (n - i) as nat);
        let b = (x & 0xff) as u8;
        proof {
            assert(x & 0xff == x % 256) by (bit_vector);
            vstd::bits::lemma_u128_shr_is_div(x, 8);
            lemma2_to64();
            assert(before =~= seq![(x as nat % 256) as u8] + le_seq(x as nat / 256, (n - i - 1) as nat));
        }
        out.push(b);
        x = x >> 8;
        i = i + 1;
        proof {
            assert(out@ + le_seq(x as nat, (n - i) as nat) =~= le_seq(v as nat, n as nat));
        }
    }
    proof {
        assert(le_seq(x as nat, 0) =~= Seq::<u8>::empty());
        assert(out@ =~= le_seq(v as nat, n as nat));
    }
    out
}

/// The number that a little-endian byte string of at most 16 bytes denotes.
fn le_number(bytes: &[u8]) -> (v: u128)
    requires
        bytes@.len() <= 16,
    ensures
        v as nat == le_value(bytes@),
{
    let mut v: u128 = 0;
    let mut i = bytes.len();
    proof {
        assert(bytes@.skip(i as int) =~= Seq::<u8>::empty());
    }
    while i > 0
        invariant
            i <= bytes@.len() <= 16,
            v as nat == le_value(bytes@.skip(i as int)),
        decreases i,
    {
        proof {
            lemma_le_value_bound(bytes@.skip(i as int));
            lemma2_to64();
            let k = (bytes@.len() - i) as nat;
            lemma_pow2_adds(8 * k, 8);
            if 8 * k + 8 < 128 {
                vstd::arithmetic::power2::lemma_pow2_strictly_increases((8 * k + 8) as nat, 128);
            }
            crate::primitive::lemma_u128_pow2_top();
            assert(v * 256 + 255 < pow2(8 * k + 8)) by (nonlinear_arith)
                requires
                    (v as nat) < pow2(8 * k),
                    pow2(8 * k + 8) == pow2(8 * k) * 256,
            {
                assert((v + 1) * 256 <= pow2(8 * k) * 256);
            }
        }
        i = i - 1;
        let b = bytes[i];
        v = v * 256 + b as u128;
        proof {
            assert(bytes@.skip(i as int).drop_first() =~= bytes@.skip(i + 1));
        }
    }
    proof {
        assert(bytes@.skip(0) =~= bytes@);
    }
    v
}

/// Writes the low `n` bytes of `v`, least significant first.
pub fn write_le(w: &mut BitWriter, v: u128, n: usize) -> (res: Result<(), CodecError>)
    requires
        n <= 16,
    ensures
        res is Ok,
        final(w).bits() == old(w).bits() + le_bits(v as nat, n as nat),
{
    let bytes = le_bytes(v, n);
    w.write_full_bytes(bytes.as_slice())
}

/// Reads an `n`-byte little-endian integer.
pub fn read_le(r: &mut BitReader, n: usize) -> (res: Result<u128, CodecError>)
    requires
        n <= 16,
    ensures
        match le_parse(old(r).remaining(), n as nat) {
            Ok((v, k)) => {
                &&& res matches Ok(x) && x as nat == v
                &&& final(r).remaining() == old(r).remaining().skip(k as int)
                &&& v < pow2(8 * n as nat)
            },
            Err(e) => res == Err::<u128, CodecError>(e) && final(r).remaining() == Seq::<bool>::empty(),
        },
{
    let mut buf: Vec<u8> = vec![0u8; n];
    let res = r.read_full_bytes(buf.as_mut_slice());
    match res {
        Ok(()) => {
            proof {
                lemma_bytes_of_byte_bits(buf@);
                lemma_le_value_bound(buf@);
            }
            Ok(le_number(buf.as_slice()))
        },
        Err(e) => Err(e),
    }
}

} // verus!
