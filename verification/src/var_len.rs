//! Variable-length unsigned integers: seven bits at a time, lowest group
//! first, each group preceded by a continuation bit.
use vstd::prelude::*;

verus! {

use vstd::arithmetic::power2::{pow2, lemma_pow2_pos, lemma_pow2_adds, lemma2_to64};
use crate::bits::{bits_of, value_of, lemma_bits_of_len, lemma_bits_of_mod, lemma_value_of_bits_of, lemma_value_of_bound};
use crate::codec::{Modeled, RoundTrip};
use crate::dec::{BitDecode, BitReader, consumed_from};
use crate::enc::{BitEncode, BitWriter};
use crate::error::CodecError;
use crate::primitive::lemma_bit_widths;

/// A `u32` written in as few seven-bit groups as it needs.
pub struct VarLen(pub u32);

/// The bits that encode `v`: its low seven bits after a continuation bit,
/// then, while anything is left, the rest in the same way.
pub open spec fn varlen_bits(v: nat) -> Seq<bool>
    decreases v,
{
    if v < 128 {
        seq![false] + bits_of(v, 7)
    } else {
        seq![true] + bits_of(v % 128, 7) + varlen_bits(v / 128)
    }
}

/// Reading a variable-length integer whose next group lands at bit `shift`:
/// the value contributed from that group on, and the bits it takes.
pub open spec fn varlen_parse(bits: Seq<bool>, shift: nat) -> Result<(nat, nat), CodecError>
    decreases 32 - shift,
{
    if bits.len() < 8 {
        Err(CodecError::UnexpectedEof)
    } else {
        let chunk = value_of(bits.subrange(1, 8));
        if shift == 28 && chunk > 0x0F {
            Err(CodecError::VarLenOverflow)
        } else if !bits[0] {
            Ok((chunk * pow2(shift), 8))
        } else if shift + 7 >= 32 {
            Err(CodecError::VarLenTooLong)
        } else {
            match varlen_parse(bits.skip(8), shift + 7) {
                Ok((v, n)) => Ok((chunk * pow2(shift) + v, n + 8)),
                Err(e) => Err(e),
            }
        }
    }
}

impl Modeled for VarLen {
    type Model = u32;

    open spec fn model(&self) -> u32 {
        self.0
    }
}

/// The shifts at which groups land.
pub open spec fn group_shift(shift: nat) -> bool {
    shift == 0 || shift == 7 || shift == 14 || shift == 21 || shift == 28
}

/// What a parse yields is a multiple of `2^shift` below `2^32`.
pub proof fn lemma_varlen_parse_bound(bits: Seq<bool>, shift: nat)
    requires
        group_shift(shift),
    ensures
        varlen_parse(bits, shift) matches Ok((v, n)) ==> {
            &&& v < pow2(32)
            &&& v % pow2(shift) == 0
            &&& 8 <= n <= bits.len()
        },
    decreases 32 - shift,
{
    lemma2_to64();
    if bits.len() >= 8 {
        let chunk = value_of(bits.subrange(1, 8));
        lemma_value_of_bound(bits.subrange(1, 8));
        lemma_pow2_pos(shift);
        lemma_pow2_adds(shift, 7);
        vstd::arithmetic::div_mod::lemma_mod_multiples_basic(chunk as int, pow2(shift) as int);
        if !(shift == 28 && chunk > 0x0F) {
            if bits[0] && shift + 7 < 32 {
                lemma_varlen_parse_bound(bits.skip(8), shift + 7);
                if let Ok((v, n)) = varlen_parse(bits.skip(8), shift + 7) {
                    lemma_pow2_pos(shift + 7);
                    lemma_varlen_sum_bound(chunk, v, shift);
                }
            } else if !bits[0] {
                lemma_varlen_group_bound(chunk, shift);
            }
        }
    }
}

/// A single group at `shift` stays below `2^32`, as does anything below it.
proof fn lemma_varlen_group_bound(chunk: nat, shift: nat)
    requires
        group_shift(shift),
        chunk < 128,
        shift == 28 ==> chunk <= 0x0F,
    ensures
        chunk * pow2(shift) < pow2(32),
        (chunk + 1) * pow2(shift) <= pow2(shift + 7),
        (chunk + 1) * pow2(shift) <= pow2(32),
{
    lemma2_to64();
    lemma_pow2_pos(shift);
    lemma_pow2_adds(shift, 7);
    assert((chunk + 1) * pow2(shift) <= 128 * pow2(shift)) by (nonlinear_arith)
        requires chunk < 128, pow2(shift) > 0;
    assert(chunk * pow2(shift) < (chunk + 1) * pow2(shift)) by (nonlinear_arith)
        requires pow2(shift) > 0;
    if shift < 28 {
        if shift + 7 < 32 {
            vstd::arithmetic::power2::lemma_pow2_strictly_increases(shift + 7, 32);
        }
    } else {
        lemma_pow2_adds(28, 4);
        assert((chunk + 1) * pow2(28) <= 16 * pow2(28)) by (nonlinear_arith)
            requires chunk <= 15, pow2(28) > 0;
    }
}

/// A group at `shift` plus the groups above it stays below `2^32`.
proof fn lemma_varlen_sum_bound(chunk: nat, v: nat, shift: nat)
    requires
        group_shift(shift),
        shift < 28,
        chunk < 128,
        v < pow2(32),
        v % pow2(shift + 7) == 0,
    ensures
        chunk * pow2(shift) + v < pow2(32),
        (chunk * pow2(shift) + v) % pow2(shift) == 0,
{
    lemma2_to64();
    lemma_pow2_pos(shift);
    lemma_pow2_adds(shift, 7);
    let p = pow2(shift + 7);
    lemma_pow2_pos(shift + 7);
    lemma_pow2_adds(shift + 7, (32 - shift - 7) as nat);
    let q = pow2((32 - shift - 7) as nat);
    vstd::arithmetic::div_mod::lemma_fundamental_div_mod(v as int, p as int);
    let k = v / p;
    assert(v == k * p) by (nonlinear_arith)
        requires v == p * k + 0;
    assert(k < q) by (nonlinear_arith)
        requires v == k * p, v < p * q, p > 0;
    assert(chunk * pow2(shift) < p) by (nonlinear_arith)
        requires chunk < 128, p == pow2(shift) * 128, pow2(shift) > 0;
    assert(chunk * pow2(shift) + v < pow2(32)) by (nonlinear_arith)
        requires
            chunk * pow2(shift) < p,
            v == k * p,
            k + 1 <= q,
            pow2(32) == p * q,
    {
        assert((k + 1) * p <= q * p);
    }
    assert(chunk * pow2(shift) + v == (chunk + k * 128) * pow2(shift)) by (nonlinear_arith)
        requires v == k * p, p == pow2(shift) * 128;
    vstd::arithmetic::div_mod::lemma_mod_multiples_basic((chunk + k * 128) as int, pow2(shift) as int);
}

impl BitEncode for VarLen {
    open spec fn spec_encode(m: u32) -> Result<Seq<bool>, CodecError> {
        Ok(varlen_bits(m as nat))
    }

    fn encode(&self, w: &mut BitWriter) -> (res: Result<(), CodecError>) {
        let mut val = self.0;
        let ghost start = w.bits();
        let ghost whole = varlen_bits(self.0 as nat);
        proof {
            lemma_bit_widths();
            lemma2_to64();
            assert(whole =~= Seq::<bool>::empty() + varlen_bits(val as nat));
        }
        loop
            invariant
                start == old(w).bits(),
                whole == varlen_bits(self.0 as nat),
                exists|done: Seq<bool>|
                    #![trigger done + varlen_bits(val as nat)]
                    whole == done + varlen_bits(val as nat) && w.bits() == start + done,
            decreases val,
        {
            let ghost done = choose|done: Seq<bool>|
                #![trigger done + varlen_bits(val as nat)]
                whole == done + varlen_bits(val as nat) && w.bits() == start + done;
            proof {
                lemma_bit_widths();
                lemma2_to64();
                assert((val as u8) as u32 == val % 256) by (bit_vector);
                vstd::arithmetic::div_mod::lemma_mod_mod(val as int, 128, 2);
                lemma_bits_of_mod((val as u8) as nat, 7);
                lemma_bits_of_mod(val as nat, 7);
                assert(bits_of((val as u8) as nat, 7) == bits_of(val as nat % 128, 7));
                assert(bits_of(0, 0) == Seq::<bool>::empty());
                assert(bits_of(0, 1) =~= seq![false]);
                assert(bits_of(1, 1) =~= seq![true]);
            }
            if val < 128 {
                w.write_bits(0u8, 1)?;
                w.write_bits(val as u8, 7)?;
                proof {
                    assert(val as nat % 128 == val as nat);
                    assert(w.bits() =~= start + (done + varlen_bits(val as nat)));
                }
                return Ok(());
            } else {
                w.write_bits(1u8, 1)?;
                w.write_bits(val as u8, 7)?;
                let ghost next = done + (seq![true] + bits_of(val as nat % 128, 7));
                proof {
                    vstd::bits::lemma_u32_shr_is_div(val, 7);
                    assert(w.bits() =~= start + next);
                    assert(whole =~= next + varlen_bits(val as nat / 128));
                }
                val = val >> 7;
                proof {
                    assert(whole == next + varlen_bits(val as nat));
                }
            }
        }
    }
}

impl BitDecode for VarLen {
    open spec fn spec_decode(bits: Seq<bool>) -> Result<(u32, nat), CodecError> {
        match varlen_parse(bits, 0) {
            Ok((v, n)) => Ok((v as u32, n)),
            Err(e) => Err(e),
        }
    }

    fn decode(r: &mut BitReader) -> (res: Result<Self, CodecError>) {
        let ghost start = r.remaining();
        let mut val = 0u32;
        let mut shift = 0u32;
        proof {
            lemma2_to64();
            assert(start.skip(0) =~= start);
        }
        loop
            invariant
                start == old(r).remaining(),
                group_shift(shift as nat),
                (val as nat) < pow2(shift as nat),
                consumed_from(start, r.remaining()),
                varlen_parse(start, 0) == match varlen_parse(r.remaining(), shift as nat) {
                    Ok((v, n)) => Ok::<(nat, nat), CodecError>(
                        ((val + v) as nat, ((start.len() - r.remaining().len()) + n) as nat),
                    ),
                    Err(e) => Err(e),
                },
            decreases 32 - shift,
        {
            proof {
                lemma_bit_widths();
                lemma2_to64();
            }
            let ghost here = r.remaining();
            let cont = match r.read_bits::<u8>(1) {
                Ok(c) => c,
                Err(e) => {
                    proof {
                        assert(start.skip(start.len() as int) =~= Seq::<bool>::empty());
                    }
                    return Err(e);
                },
            };
            let chunk8 = match r.read_bits::<u8>(7) {
                Ok(c) => c,
                Err(e) => {
                    proof {
                        assert(start.skip(start.len() as int) =~= Seq::<bool>::empty());
                    }
                    return Err(e);
                },
            };
            let chunk = chunk8 as u32;
            proof {
                assert(here.len() >= 8);
                assert(here.take(1) =~= here.subrange(0, 1));
                assert(here.skip(1).take(7) =~= here.subrange(1, 8));
                assert(here.skip(1).skip(7) =~= here.skip(8));
                lemma_value_of_bound(here.subrange(1, 8));
                assert(value_of(here.take(1)) == if here[0] { 1nat } else { 0nat }) by {
                    assert(here.take(1).drop_last() =~= Seq::<bool>::empty());
                    assert(here.take(1).last() == here[0]);
                    assert(value_of(Seq::<bool>::empty()) == 0);
                }
                assert(r.remaining() =~= start.skip(start.len() - r.remaining().len()));
            }
            if shift == 28 && chunk > 0x0F {
                return Err(CodecError::VarLenOverflow);
            }
            proof {
                lemma_pow2_pos(shift as nat);
                lemma_pow2_adds(shift as nat, 7);
                lemma_varlen_group_bound(chunk as nat, shift as nat);
                vstd::bits::lemma_u32_pow2_no_overflow(shift as nat);
                vstd::bits::lemma_u32_shl_is_mul(chunk, shift);
                assert(chunk * pow2(shift as nat) < pow2(32));
            }
            let placed = chunk << shift;
            proof {
                crate::bits::lemma_div_mod_of_combination(chunk as nat, 0, pow2(shift as nat));
                assert(chunk * pow2(shift as nat) + 0 == placed);
                assert(val + placed < (chunk + 1) * pow2(shift as nat)) by (nonlinear_arith)
                    requires
                        (val as nat) < pow2(shift as nat),
                        placed == chunk * pow2(shift as nat),
                ;
                lemma_or_is_add(val, placed, shift);
            }
            val = val | placed;
            if cont == 0 {
                proof {
                    lemma_varlen_parse_bound(start, 0);
                }
                return Ok(VarLen(val));
            }
            shift = shift + 7;
            if shift >= 32 {
                return Err(CodecError::VarLenTooLong);
            }
            proof {
                lemma_pow2_adds((shift - 7) as nat, 7);
            }
        }
    }
}

/// `val` lies below `2^shift` and `placed` is a multiple of `2^shift`, so
/// their bits do not meet.
proof fn lemma_or_is_add(val: u32, placed: u32, shift: u32)
    requires
        shift < 32,
        (val as nat) < pow2(shift as nat),
        placed == (placed as nat / pow2(shift as nat)) * pow2(shift as nat),
        val + placed < pow2(32),
    ensures
        val | placed == val + placed,
{
    lemma2_to64();
    vstd::bits::lemma_u32_pow2_no_overflow(shift as nat);
    vstd::bits::lemma_u32_shl_is_mul(1, shift);
    vstd::bits::lemma_u32_shr_is_div(placed, shift);
    let q = placed >> shift;
    vstd::bits::lemma_u32_shl_is_mul(q, shift);
    assert(val < (1u32 << shift));
    assert(placed == q << shift);
    assert(val | (q << shift) == val + (q << shift)) by (bit_vector)
        requires
            shift < 32,
            val < (1u32 << shift),
            val + (q << shift) < 0x1_0000_0000,
    ;
}

/// Reading back the groups of `v`, placed at `shift`, gives `v * 2^shift`.
pub proof fn lemma_varlen_parse_bits(v: nat, shift: nat, rest: Seq<bool>)
    requires
        group_shift(shift),
        v * pow2(shift) < pow2(32),
    ensures
        varlen_parse(varlen_bits(v) + rest, shift) == Ok::<(nat, nat), CodecError>(
            (v * pow2(shift), varlen_bits(v).len()),
        ),
    decreases v,
{
    lemma2_to64();
    lemma_pow2_pos(shift);
    let b = varlen_bits(v) + rest;
    let group = bits_of(v % 128, 7);
    lemma_bits_of_len(v % 128, 7);
    lemma_value_of_bits_of(v % 128, 7);
    vstd::arithmetic::div_mod::lemma_mod_twice(v as int, 128);
    if v < 128 {
        assert(varlen_bits(v) == seq![false] + bits_of(v, 7));
        assert(b.subrange(1, 8) =~= group);
        assert(b[0] == false);
        if shift == 28 {
            lemma_pow2_adds(28, 4);
            assert(v < 16) by (nonlinear_arith)
                requires v * pow2(28) < pow2(28) * 16, pow2(28) > 0;
        }
    } else {
        let upper = varlen_bits(v / 128);
        assert(varlen_bits(v) == seq![true] + group + upper);
        assert(b.subrange(1, 8) =~= group);
        assert(b[0] == true);
        assert(b.skip(8) =~= upper + rest);
        if shift == 28 {
            lemma_pow2_adds(28, 4);
            assert(v < 16) by (nonlinear_arith)
                requires v * pow2(28) < pow2(28) * 16, pow2(28) > 0;
        }
        assert(shift + 7 < 32);
        lemma_pow2_adds(shift, 7);
        lemma_pow2_pos(shift + 7);
        vstd::arithmetic::div_mod::lemma_fundamental_div_mod(v as int, 128);
        assert((v / 128) * pow2(shift + 7) <= v * pow2(shift)) by (nonlinear_arith)
            requires
                pow2(shift + 7) == pow2(shift) * 128,
                v == 128 * (v / 128) + v % 128,
                v % 128 >= 0,
                pow2(shift) > 0,
        {
            assert((v / 128) * pow2(shift + 7) == (128 * (v / 128)) * pow2(shift));
        }
        lemma_varlen_parse_bits(v / 128, shift + 7, rest);
        assert((v % 128) * pow2(shift) + (v / 128) * pow2(shift + 7) == v * pow2(shift)) by (nonlinear_arith)
            requires
                pow2(shift + 7) == pow2(shift) * 128,
                v == 128 * (v / 128) + v % 128,
        ;
    }
}

impl RoundTrip for VarLen {
    open spec fn spec_round_trips(m: u32) -> bool {
        true
    }

    proof fn lemma_round_trip(x: &Self, rest: Seq<bool>) {
        lemma2_to64();
        lemma_varlen_parse_bits(x.0 as nat, 0, rest);
    }
}

/// The number of seven-bit groups, and so of bytes, that `v` is written in.
pub open spec fn varlen_groups(v: nat) -> nat
    decreases v,
{
    if v < 128 {
        1
    } else {
        1 + varlen_groups(v / 128)
    }
}

/// Counting groups: `k` groups or fewer hold exactly the values below `2^(7k)`.
proof fn lemma_varlen_groups(v: nat, k: nat)
    requires
        k >= 1,
    ensures
        varlen_bits(v).len() == 8 * varlen_groups(v),
        varlen_groups(v) <= k <==> v < pow2(7 * k),
    decreases v,
{
    lemma2_to64();
    lemma_bits_of_len(v, 7);
    lemma_bits_of_len(v % 128, 7);
    lemma_pow2_adds(7, (7 * k - 7) as nat);
    lemma_pow2_pos((7 * k - 7) as nat);
    if v >= 128 {
        if k >= 2 {
            lemma_varlen_groups(v / 128, (k - 1) as nat);
            assert(v < pow2(7 * k) <==> v / 128 < pow2((7 * (k - 1)) as nat)) by {
                assert(pow2(7 * k) == 128 * pow2((7 * k - 7) as nat));
                vstd::arithmetic::div_mod::lemma_fundamental_div_mod(v as int, 128);
                if v / 128 < pow2((7 * k - 7) as nat) {
                    assert(v < 128 * pow2((7 * k - 7) as nat)) by (nonlinear_arith)
                        requires
                            v / 128 < pow2((7 * k - 7) as nat),
                            v == 128 * (v / 128) + v % 128,
                            v % 128 < 128,
                    ;
                } else {
                    assert(v >= 128 * pow2((7 * k - 7) as nat)) by (nonlinear_arith)
                        requires
                            v / 128 >= pow2((7 * k - 7) as nat),
                            v == 128 * (v / 128) + v % 128,
                            v % 128 >= 0,
                    ;
                }
            }
        } else {
            lemma_varlen_groups(v / 128, 1);
            assert(7 * k == 7);
        }
    } else if k > 1 {
        vstd::arithmetic::power2::lemma_pow2_strictly_increases(7, 7 * k);
    }
}

/// A `VarLen` takes one byte per group, and it takes `k` bytes or fewer
/// exactly when its value is below `2^(7k)`: one byte below 128, two below
/// 16384, and five at most for a `u32`.
pub proof fn lemma_varlen_size(v: nat, k: nat)
    requires
        k >= 1,
    ensures
        varlen_bits(v).len() == 8 * varlen_groups(v),
        varlen_groups(v) <= k <==> v < pow2(7 * k),
        v < pow2(32) ==> varlen_groups(v) <= 5,
{
    lemma_varlen_groups(v, k);
    lemma_varlen_groups(v, 5);
    vstd::arithmetic::power2::lemma_pow2_strictly_increases(32, 35);
}

} // verus!
