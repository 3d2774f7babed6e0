//! Reading values back from a stream of bits.
use vstd::prelude::*;

verus! {

use vstd::arithmetic::power2::{pow2, lemma_pow2_pos, lemma_pow2_adds, lemma2_to64};
use crate::bits::{
    bits_of,
    value_of,
    byte_bits,
    lemma_bits_of_len,
    lemma_bits_of_split,
    lemma_bits_of_mod,
    lemma_value_of_bits_of,
    lemma_value_of_append,
    lemma_byte_bits_first,
    lemma_byte_bits_len,
    lemma_byte_bits_skip,
    lemma_byte_bits_push,
    lemma_mod_256_then_low,
};
use crate::codec::Modeled;
use crate::error::CodecError;
use crate::primitive::{BitInt, lemma_bit_widths};

/// `after` is what is left of `before` once some leading bits are consumed.
pub open spec fn consumed_from(before: Seq<bool>, after: Seq<bool>) -> bool {
    &&& after.len() <= before.len()
    &&& after == before.skip(before.len() - after.len())
}

/// Taking the top `chunk` of the `left` pending bits of `buf`.
proof fn lemma_take_chunk(buf: u8, left: nat, chunk: nat, bits: u8, rest: Seq<bool>)
    requires
        1 <= chunk <= left <= 8,
        bits as nat == (buf as nat / pow2((left - chunk) as nat)) % pow2(chunk),
    ensures
        bits_of(buf as nat, left) + rest == bits_of(bits as nat, chunk) + (bits_of(
            buf as nat,
            (left - chunk) as nat,
        ) + rest),
        value_of(bits_of(bits as nat, chunk)) == bits,
        bits_of(bits as nat, chunk).len() == chunk,
        (bits as nat) < pow2(chunk),
{
    let lo = (left - chunk) as nat;
    lemma_pow2_pos(chunk);
    lemma_bits_of_split(buf as nat, chunk, lo);
    lemma_bits_of_mod(buf as nat / pow2(lo), chunk);
    lemma_bits_of_len(bits as nat, chunk);
    lemma_value_of_bits_of(bits as nat, chunk);
    vstd::arithmetic::div_mod::lemma_small_mod(bits as nat, pow2(chunk));
    assert(chunk + lo == left);
    assert(bits_of(buf as nat, left) + rest =~= bits_of(bits as nat, chunk) + (bits_of(buf as nat, lo) + rest));
}

/// Consuming `piece` from the stream `start`, of which `done` bits are already consumed.
proof fn lemma_advance(start: Seq<bool>, done: int, piece: Seq<bool>, after: Seq<bool>)
    requires
        0 <= done <= start.len(),
        start.skip(done) == piece + after,
    ensures
        done + piece.len() <= start.len(),
        after == start.skip(done + piece.len()),
        start.take(done + piece.len()) == start.take(done) + piece,
{
    let whole = start.skip(done);
    assert(whole.len() == start.len() - done);
    assert((piece + after).len() == start.len() - done);
    assert forall|i: int| 0 <= i < after.len() implies after[i] == start[done + piece.len() + i] by {
        assert((piece + after)[piece.len() + i] == after[i]);
        assert(whole[piece.len() + i] == start[done + piece.len() + i]);
    }
    assert(after =~= start.skip(done + piece.len()));
    assert forall|i: int| 0 <= i < piece.len() implies piece[i] == start[done + i] by {
        assert((piece + after)[i] == piece[i]);
        assert(whole[i] == start[done + i]);
    }
    assert(start.take(done + piece.len()) =~= start.take(done) + piece);
}

/// One step of the accumulator: `acc` holds the bits read so far above
/// position `rem + chunk`; `bits` lands in the `chunk` bits below.
proof fn lemma_acc_step(acc: nat, c: nat, chunk: nat, rem: nat, bits: nat)
    requires
        acc == c * pow2(rem + chunk),
        bits < pow2(chunk),
    ensures
        acc % pow2(rem + chunk) == 0,
        acc + bits * pow2(rem) == (c * pow2(chunk) + bits) * pow2(rem),
{
    lemma_pow2_pos(rem + chunk);
    lemma_pow2_adds(rem, chunk);
    vstd::arithmetic::div_mod::lemma_mod_multiples_basic(c as int, pow2(rem + chunk) as int);
    assert(acc + bits * pow2(rem) == (c * pow2(chunk) + bits) * pow2(rem)) by (nonlinear_arith)
        requires
            acc == c * pow2(rem + chunk),
            pow2(rem + chunk) == pow2(rem) * pow2(chunk),
    ;
}

/// Consuming any number of leading bits leaves a suffix.
pub proof fn lemma_consumed_skip(before: Seq<bool>, k: int)
    requires
        0 <= k <= before.len(),
    ensures
        consumed_from(before, before.skip(k)),
{
    assert(before.skip(k) =~= before.skip(before.len() - before.skip(k).len()));
}

/// Consuming leading bits twice consumes leading bits.
pub proof fn lemma_consumed_trans(a: Seq<bool>, b: Seq<bool>, c: Seq<bool>)
    requires
        consumed_from(a, b),
        consumed_from(b, c),
    ensures
        consumed_from(a, c),
{
    assert(c =~= a.skip(a.len() - c.len()));
}

/// A value that can be read back from bits.
pub trait BitDecode: Modeled + Sized {
    /// What decoding from the bit string `bits` gives: the model of the value
    /// and the number of bits it takes up, or the error that stops it.
    spec fn spec_decode(bits: Seq<bool>) -> Result<(Self::Model, nat), CodecError>;

    /// Reads one value from the reader's remaining bits.
    fn decode(r: &mut BitReader) -> (res: Result<Self, CodecError>)
        ensures
            match Self::spec_decode(old(r).remaining()) {
                Ok((m, n)) => {
                    &&& n <= old(r).remaining().len()
                    &&& res matches Ok(x) && x.model() == m
                    &&& final(r).remaining() == old(r).remaining().skip(n as int)
                },
                Err(e) => {
                    &&& res matches Err(e2) && e2 == e
                    &&& consumed_from(old(r).remaining(), final(r).remaining())
                },
            },
    ;
}

/// Unpacks bit fields, most significant bit first, from a byte slice.
pub struct BitReader<'a> {
    inner: &'a [u8],
    pos: usize,
    buf: u8,
    bits_left: u8,
}

impl<'a> BitReader<'a> {
    #[verifier::type_invariant]
    spec fn inv(self) -> bool {
        &&& self.bits_left < 8
        &&& self.pos <= self.inner@.len()
    }

    /// The bits left over from the last byte taken from the input (fewer than eight).
    pub closed spec fn pending(&self) -> Seq<bool> {
        bits_of(self.buf as nat, (self.bits_left % 8) as nat)
    }

    /// The input bytes not yet taken.
    pub closed spec fn rest(&self) -> Seq<u8> {
        self.inner@.skip(self.pos as int)
    }

    /// Every bit not yet read.
    pub open spec fn remaining(&self) -> Seq<bool> {
        self.pending() + byte_bits(self.rest())
    }

    /// Fewer than eight bits are pending, so the reader stands on a byte
    /// boundary exactly when the number of remaining bits is a multiple of eight.
    pub proof fn lemma_pending_short(&self)
        ensures
            self.pending().len() < 8,
            self.pending().len() == self.remaining().len() % 8,
    {
        lemma_bits_of_len(self.buf as nat, (self.bits_left % 8) as nat);
        lemma_byte_bits_len(self.rest());
        let p = self.pending().len();
        vstd::arithmetic::div_mod::lemma_fundamental_div_mod_converse(
            (p + 8 * self.rest().len()) as int,
            8,
            self.rest().len() as int,
            p as int,
        );
    }

    /// A reader over `inner`.
    pub fn new(inner: &'a [u8]) -> (r: Self)
        ensures
            r.rest() == inner@,
            r.pending() == Seq::<bool>::empty(),
    {
        let r = Self { inner, pos: 0, buf: 0, bits_left: 0 };
        assert(r.rest() =~= inner@);
        r
    }

    /// Reads a value through its `BitDecode` implementation.
    pub fn read<T: BitDecode>(&mut self) -> (res: Result<T, CodecError>)
        ensures
            match T::spec_decode(old(self).remaining()) {
                Ok((m, n)) => {
                    &&& n <= old(self).remaining().len()
                    &&& res matches Ok(x) && x.model() == m
                    &&& final(self).remaining() == old(self).remaining().skip(n as int)
                },
                Err(e) => {
                    &&& res matches Err(e2) && e2 == e
                    &&& consumed_from(old(self).remaining(), final(self).remaining())
                },
            },
    {
        T::decode(self)
    }

    /// Reads `count` bits as an unsigned number, most significant bit first.
    /// When the input runs out first, every remaining bit is consumed.
    pub fn read_bits<T: BitInt>(&mut self, count: u32) -> (res: Result<T, CodecError>)
        ensures
            count == 0 || count > T::BITS ==> res == Err::<T, CodecError>(CodecError::BadBitCount)
                && *final(self) == *old(self),
            0 < count <= T::BITS && count <= old(self).remaining().len() ==> {
                &&& res matches Ok(v) && v.spec_val() == value_of(old(self).remaining().take(count as int))
                &&& final(self).remaining() == old(self).remaining().skip(count as int)
            },
            0 < count <= T::BITS && count > old(self).remaining().len() ==> {
                &&& res == Err::<T, CodecError>(CodecError::UnexpectedEof)
                &&& final(self).remaining() == Seq::<bool>::empty()
            },
    {
        if count == 0 || count > T::BITS {
            return Err(CodecError::BadBitCount);
        }
        let ghost start = self.remaining();
        let mut acc = T::ZERO;
        let mut remaining = count;
        proof {
            acc.lemma_int_facts();
            assert(start.take(0) =~= Seq::<bool>::empty());
            assert(start.skip(0) =~= start);
            assert(value_of(Seq::<bool>::empty()) == 0);
            assert(acc.spec_val() == 0);
        }
        while remaining > 0
            invariant
                0 < count <= T::BITS,
                remaining <= count,
                count - remaining <= start.len(),
                start == old(self).remaining(),
                self.remaining() == start.skip(count - remaining),
                acc.spec_val() == value_of(start.take(count - remaining)) * pow2(remaining as nat),
            decreases remaining,
        {
            proof {
                use_type_invariant(&*self);
                acc.lemma_int_facts();
                lemma2_to64();
            }
            let ghost done = (count - remaining) as int;
            let ghost before = self.remaining();
            let left: u8 = if self.bits_left == 0 {
                if self.pos >= self.inner.len() {
                    proof {
                        assert(self.rest() =~= Seq::<u8>::empty());
                        assert(self.remaining() =~= Seq::<bool>::empty());
                    }
                    return Err(CodecError::UnexpectedEof);
                }
                let ghost rest = self.rest();
                self.buf = self.inner[self.pos];
                self.pos = self.pos + 1;
                proof {
                    lemma_byte_bits_first(rest);
                    assert(rest.drop_first() =~= self.rest());
                    assert(bits_of(self.buf as nat, 0) =~= Seq::<bool>::empty());
                    assert(before =~= bits_of(self.buf as nat, 8) + byte_bits(self.rest()));
                }
                8
            } else {
                self.bits_left
            };
            // here `before == bits_of(buf, left) + byte_bits(rest)`
            let chunk: u32 = if remaining < left as u32 { remaining } else { left as u32 };
            let lo_shift = left as u32 - chunk;
            proof {
                if chunk < 8 {
                    vstd::bits::lemma_u8_shl_is_mul(1, chunk as u8);
                }
                vstd::bits::lemma_u8_shr_is_div(self.buf, lo_shift as u8);
            }
            let mask: u8 = if chunk == 8 { 0xFF } else { (1u8 << chunk) - 1 };
            let shifted = self.buf >> lo_shift;
            let bits = shifted & mask;
            proof {
                lemma_mod_256_then_low(shifted as nat, chunk as nat);
                if chunk == 8 {
                    assert(shifted & 0xFF == shifted) by (bit_vector);
                } else {
                    vstd::bits::lemma_u8_low_bits_mask_is_mod(shifted, chunk as nat);
                    assert(vstd::bits::low_bits_mask(chunk as nat) == pow2(chunk as nat) - 1);
                }
                assert(bits as nat == (self.buf as nat / pow2(lo_shift as nat)) % pow2(chunk as nat));
            }
            let ghost piece = bits_of(bits as nat, chunk as nat);
            let ghost after = bits_of(self.buf as nat, lo_shift as nat) + byte_bits(self.rest());
            let ghost c = value_of(start.take(done));
            proof {
                lemma_take_chunk(self.buf, left as nat, chunk as nat, bits, byte_bits(self.rest()));
                lemma_advance(start, done, piece, after);
                lemma_value_of_append(start.take(done), piece);
                lemma_acc_step(acc.spec_val(), c, chunk as nat, (remaining - chunk) as nat, bits as nat);
            }
            remaining = remaining - chunk;
            proof {
                assert(bits < pow2(chunk as nat) && remaining + chunk <= T::BITS
                    && acc.spec_val() % pow2((remaining + chunk) as nat) == 0);
            }
            acc = acc.deposit_byte(bits, remaining);
            self.bits_left = (left as u32 - chunk) as u8;
            proof {
                assert(self.remaining() =~= after);
            }
        }
        proof {
            lemma2_to64();
        }
        Ok(acc)
    }

    /// Fills `out` with the next bytes, each read as eight bits. When the
    /// input runs out first, every remaining bit is consumed.
    pub fn read_full_bytes(&mut self, out: &mut [u8]) -> (res: Result<(), CodecError>)
        ensures
            final(out)@.len() == old(out)@.len(),
            8 * old(out)@.len() <= old(self).remaining().len() ==> {
                &&& res is Ok
                &&& byte_bits(final(out)@) == old(self).remaining().take(8 * old(out)@.len() as int)
                &&& final(self).remaining() == old(self).remaining().skip(8 * old(out)@.len() as int)
            },
            8 * old(out)@.len() > old(self).remaining().len() ==> {
                &&& res == Err::<(), CodecError>(CodecError::UnexpectedEof)
                &&& final(self).remaining() == Seq::<bool>::empty()
            },
    {
        if self.is_aligned() {
            self.read_exact(out)
        } else {
            let ghost start = self.remaining();
            let mut i: usize = 0;
            proof {
                assert(start.skip(0) =~= start);
                assert(out@.take(0) =~= Seq::<u8>::empty());
            }
            while i < out.len()
                invariant
                    0 <= i <= out@.len(),
                    out@.len() == old(out)@.len(),
                    start == old(self).remaining(),
                    8 * i <= start.len(),
                    self.remaining() == start.skip(8 * i),
                    byte_bits(out@.take(i as int)) == start.take(8 * i),
                decreases out@.len() - i,
            {
                proof {
                    lemma_bit_widths();
                }
                let ghost before = self.remaining();
                let ghost prev = out@;
                match self.read_bits::<u8>(8) {
                    Ok(b) => {
                        out[i] = b;
                        proof {
                            let piece = before.take(8);
                            lemma_bits_of_len(b as nat, 8);
                            crate::bits::lemma_bits_of_value_of(piece);
                            assert(piece.len() == 8);
                            assert(bits_of(b as nat, 8) == piece);
                            assert(out@.take(i + 1) =~= prev.take(i as int).push(b));
                            lemma_byte_bits_push(prev.take(i as int), b);
                            assert(start.take(8 * (i + 1)) =~= start.take(8 * i) + piece);
                            assert(self.remaining() =~= start.skip(8 * (i + 1)));
                        }
                    },
                    Err(e) => {
                        proof {
                            assert(8 * out@.len() > start.len());
                        }
                        return Err(e);
                    },
                }
                i = i + 1;
            }
            proof {
                assert(out@.take(out@.len() as int) =~= out@);
            }
            Ok(())
        }
    }

    /// Whether the reader stands on a byte boundary.
    pub fn is_aligned(&self) -> (r: bool)
        ensures
            r == (self.pending().len() == 0),
    {
        proof {
            use_type_invariant(self);
            lemma_bits_of_len(self.buf as nat, self.bits_left as nat);
        }
        self.bits_left == 0
    }

    /// Discards the bits left over from the current byte.
    pub fn align(&mut self)
        ensures
            final(self).pending() == Seq::<bool>::empty(),
            final(self).rest() == old(self).rest(),
    {
        proof {
            use_type_invariant(&*self);
        }
        self.bits_left = 0;
        assert(bits_of(self.buf as nat, 0) =~= Seq::<bool>::empty());
    }

    /// Fills `buf` with the next input bytes; the reader must stand on a byte
    /// boundary. When the input runs out first, it is consumed to its end.
    pub fn read_exact(&mut self, buf: &mut [u8]) -> (res: Result<(), CodecError>)
        requires
            old(self).pending().len() == 0,
        ensures
            final(buf)@.len() == old(buf)@.len(),
            final(self).pending().len() == 0,
            old(buf)@.len() <= old(self).rest().len() ==> {
                &&& res is Ok
                &&& final(buf)@ == old(self).rest().take(old(buf)@.len() as int)
                &&& final(self).rest() == old(self).rest().skip(old(buf)@.len() as int)
            },
            old(buf)@.len() > old(self).rest().len() ==> {
                &&& res == Err::<(), CodecError>(CodecError::UnexpectedEof)
                &&& final(self).rest() == Seq::<u8>::empty()
            },
            8 * old(buf)@.len() <= old(self).remaining().len() ==> {
                &&& res is Ok
                &&& byte_bits(final(buf)@) == old(self).remaining().take(8 * old(buf)@.len() as int)
                &&& final(self).remaining() == old(self).remaining().skip(8 * old(buf)@.len() as int)
            },
            8 * old(buf)@.len() > old(self).remaining().len() ==> {
                &&& res == Err::<(), CodecError>(CodecError::UnexpectedEof)
                &&& final(self).remaining() == Seq::<bool>::empty()
            },
    {
        proof {
            use_type_invariant(&*self);
            lemma_bits_of_len(self.buf as nat, (self.bits_left % 8) as nat);
            lemma_byte_bits_len(self.rest());
            assert(self.remaining() =~= byte_bits(self.rest()));
        }
        let ghost rest = self.rest();
        let n = buf.len();
        if n > self.inner.len() - self.pos {
            self.pos = self.inner.len();
            proof {
                assert(self.rest() =~= Seq::<u8>::empty());
                assert(self.remaining() =~= Seq::<bool>::empty());
            }
            return Err(CodecError::UnexpectedEof);
        }
        let mut i: usize = 0;
        let start = self.pos;
        let end = start + n;
        while i < n
            invariant
                0 <= i <= n,
                start == self.pos,
                end == start + n,
                end <= self.inner@.len(),
                n == buf@.len(),
                buf@.len() == old(buf)@.len(),
                self.pos + n <= self.inner@.len(),
                rest == self.inner@.skip(self.pos as int),
                rest == old(self).rest(),
                self.bits_left == 0,
                forall|j: int| 0 <= j < i ==> buf@[j] == rest[j],
            decreases n - i,
        {
            buf[i] = self.inner[start + i];
            i = i + 1;
        }
        self.pos = self.pos + n;
        proof {
            assert(buf@ =~= rest.take(n as int));
            assert(self.rest() =~= rest.skip(n as int));
            lemma_byte_bits_skip(rest, n as int);
            assert(self.remaining() =~= byte_bits(self.rest()));
        }
        Ok(())
    }
}

} // verus!
