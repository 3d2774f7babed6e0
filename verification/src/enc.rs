//! Writing values as a stream of bits.
use vstd::prelude::*;

verus! {

use vstd::arithmetic::power2::{pow2, lemma_pow2_pos, lemma2_to64};
use crate::bits::{bits_of, byte_bits, lemma_bits_of_len, lemma_bits_of_shift_step, lemma_pending_append, lemma_byte_bits_push, lemma_byte_bits_append, lemma_mod_256_then_low, lemma_bits_of_split, lemma_bits_of_mod, lemma_bits_of_zero};
use crate::codec::Modeled;
use crate::error::CodecError;
use crate::primitive::{BitInt, lemma_bit_widths};

/// Being a prefix is transitive.
pub proof fn lemma_prefix_trans(a: Seq<bool>, b: Seq<bool>, c: Seq<bool>)
    requires
        a.is_prefix_of(b),
        b.is_prefix_of(c),
    ensures
        a.is_prefix_of(c),
{
    assert(a =~= c.subrange(0, a.len() as int)) by {
        assert forall|i: int| 0 <= i < a.len() implies a[i] == c[i] by {
            assert(a[i] == b.subrange(0, a.len() as int)[i]);
            assert(b[i] == c.subrange(0, b.len() as int)[i]);
        }
    }
}

/// A value that can be written as bits.
pub trait BitEncode: Modeled {
    /// The bits that encoding a value with model `m` writes, or the error
    /// that refuses it.
    spec fn spec_encode(m: Self::Model) -> Result<Seq<bool>, CodecError>;

    /// Writes this value's bits after those already written.
    fn encode(&self, w: &mut BitWriter) -> (res: Result<(), CodecError>)
        ensures
            match Self::spec_encode(self.model()) {
                Ok(b) => res is Ok && final(w).bits() == old(w).bits() + b,
                Err(e) => res == Err::<(), CodecError>(e) && old(w).bits().is_prefix_of(final(w).bits()),
            },
    ;
}

/// Packs bit fields, most significant bit first, into a growing byte buffer.
pub struct BitWriter {
    inner: Vec<u8>,
    current_byte: u8,
    bit_count: u8,
}

impl BitWriter {
    /// The partly filled byte holds `bit_count` bits at its top; the rest are zero.
    #[verifier::type_invariant]
    spec fn inv(self) -> bool {
        &&& self.bit_count < 8
        &&& (self.current_byte as nat) % pow2((8 - self.bit_count) as nat) == 0
    }

    /// The complete bytes written so far.
    pub closed spec fn bytes(&self) -> Seq<u8> {
        self.inner@
    }

    /// The bits written after the last complete byte (fewer than eight).
    pub closed spec fn pending(&self) -> Seq<bool> {
        let n = (self.bit_count % 8) as nat;
        bits_of(self.current_byte as nat / pow2((8 - n) as nat), n)
    }

    /// Every bit written so far.
    pub open spec fn bits(&self) -> Seq<bool> {
        byte_bits(self.bytes()) + self.pending()
    }

    /// Fewer than eight bits are ever pending.
    pub proof fn lemma_pending_short(&self)
        ensures
            self.pending().len() < 8,
    {
        lemma_bits_of_len(self.current_byte as nat / pow2((8 - (self.bit_count % 8)) as nat), (self.bit_count % 8) as nat);
    }

    /// Appends one complete byte to the buffer.
    fn push_byte(&mut self, b: u8)
        ensures
            final(self).bytes() == old(self).bytes().push(b),
            final(self).current_byte == old(self).current_byte,
            final(self).bit_count == old(self).bit_count,
    {
        proof {
            use_type_invariant(&*self);
        }
        let mut buf = Vec::new();
        std::mem::swap(&mut buf, &mut self.inner);
        buf.push(b);
        std::mem::swap(&mut buf, &mut self.inner);
    }

    /// A writer that appends to `inner`.
    pub fn new(inner: Vec<u8>) -> (w: Self)
        ensures
            w.bytes() == inner@,
            w.pending() == Seq::<bool>::empty(),
    {
        proof {
            lemma2_to64();
            assert(0nat % pow2(8) == 0);
        }
        Self { inner, current_byte: 0, bit_count: 0 }
    }

    /// Writes a value through its `BitEncode` implementation.
    pub fn write<T: BitEncode + ?Sized>(&mut self, v: &T) -> (res: Result<(), CodecError>)
        ensures
            match T::spec_encode(v.model()) {
                Ok(b) => res is Ok && final(self).bits() == old(self).bits() + b,
                Err(e) => res == Err::<(), CodecError>(e) && old(self).bits().is_prefix_of(final(self).bits()),
            },
    {
        v.encode(self)
    }

    /// Writes the low `count` bits of `value`, most significant first.
    pub fn write_bits<T: BitInt>(&mut self, value: T, count: u32) -> (res: Result<(), CodecError>)
        ensures
            count == 0 || count > T::BITS ==> res == Err::<(), CodecError>(CodecError::BadBitCount)
                && *final(self) == *old(self),
            0 < count <= T::BITS ==> res is Ok && final(self).bits() == old(self).bits() + bits_of(
                value.spec_val(),
                count as nat,
            ),
    {
        if count == 0 || count > T::BITS {
            return Err(CodecError::BadBitCount);
        }
        let ghost v = value.spec_val();
        let ghost start = self.bits();
        proof {
            lemma_pow2_pos(count as nat);
            lemma_bits_of_len(v / pow2(count as nat), 0);
            assert(bits_of(v / pow2(count as nat), 0) =~= Seq::<bool>::empty());
            assert(start + Seq::<bool>::empty() =~= start);
        }
        let mut remaining = count;
        while remaining > 0
            invariant
                0 < count <= T::BITS,
                remaining <= count,
                v == value.spec_val(),
                start == old(self).bits(),
                self.bits() == start + bits_of(v / pow2(remaining as nat), (count - remaining) as nat),
            decreases remaining,
        {
            proof {
                use_type_invariant(&*self);
                value.lemma_int_facts();
                lemma2_to64();
            }
            let space = 8 - self.bit_count as u32;
            let chunk = if remaining < space { remaining } else { space };
            let shift = remaining - chunk;
            proof {
                if chunk < 8 {
                    vstd::bits::lemma_u8_shl_is_mul(1, chunk as u8);
                }
                lemma_bit_widths();
            }
            let mask: u8 = if chunk == 8 { 0xFF } else { (1u8 << chunk) - 1 };
            let byte = value.extract_byte(shift);
            let bits = byte & mask;
            proof {
                lemma_mod_256_then_low(v / pow2(shift as nat), chunk as nat);
                if chunk == 8 {
                    assert(byte & 0xFF == byte) by (bit_vector);
                } else {
                    vstd::bits::lemma_u8_shl_is_mul(1, chunk as u8);
                    vstd::bits::lemma_u8_low_bits_mask_is_mod(byte, chunk as nat);
                    assert(vstd::bits::low_bits_mask(chunk as nat) == pow2(chunk as nat) - 1);
                }
                assert(bits as nat == (v / pow2(shift as nat)) % pow2(chunk as nat));
                lemma_bits_of_shift_step(v, shift as nat, chunk as nat, (count - remaining) as nat);
                lemma_pending_append(
                    self.current_byte as nat,
                    self.bit_count as nat,
                    bits as nat,
                    chunk as nat,
                );
            }
            let ghost before = self.bits();
            let ghost old_bytes = self.inner@;
            let ghost old_pending = self.pending();
            let ghost done = (count - remaining) as nat;
            let ghost taken = bits_of(v / pow2(remaining as nat), done);
            assert(before == start + taken);
            let ghost added = bits_of(bits as nat, chunk as nat);
            proof {
                assert(before == byte_bits(old_bytes) + old_pending);
                assert(old_pending == bits_of(self.current_byte as nat / pow2((8 - self.bit_count) as nat), self.bit_count as nat));
                // the low `chunk` bits of `v >> shift` extend the bits written so far
                assert(bits_of(v / pow2(remaining as nat), done) + added == bits_of(v / pow2(shift as nat), (done + chunk) as nat));
            }
            let new_count = self.bit_count + chunk as u8;
            let filled = self.current_byte.deposit_byte(bits, space - chunk);
            if new_count == 8 {
                self.push_byte(filled);
                self.current_byte = 0;
                proof {
                    lemma_pow2_pos(8);
                    assert(0nat % pow2(8) == 0);
                }
                self.bit_count = 0;
                proof {
                    lemma_byte_bits_push(old_bytes, filled);
                    assert(pow2(0) == 1);
                    assert(filled as nat / pow2(0) == filled as nat);
                    assert(bits_of(filled as nat, 8) == old_pending + added);
                    assert(self.pending() =~= Seq::<bool>::empty());
                    assert(self.bits() =~= byte_bits(old_bytes) + (old_pending + added));
                }
            } else {
                proof {
                    vstd::bits::lemma_u8_pow2_no_overflow(0);
                    crate::bits::lemma_pow2_multiple_smaller(
                        self.current_byte as nat,
                        (8 - new_count) as nat,
                        (8 - self.bit_count) as nat,
                    );
                }
                self.bit_count = new_count;
                self.current_byte = filled;
                proof {
                    assert(self.pending() == old_pending + added);
                    assert(self.bits() =~= byte_bits(old_bytes) + (old_pending + added));
                }
            }
            remaining = remaining - chunk;
            proof {
                assert(self.bits() == before + added);
                assert((start + taken) + added =~= start + (taken + added));
                assert(remaining == shift);
                assert(self.bits() =~= start + bits_of(v / pow2(remaining as nat), (count - remaining) as nat));
            }
        }
        proof {
            lemma2_to64();
            assert(v / pow2(0) == v);
        }
        Ok(())
    }

    /// Writes whole bytes, each as eight bits.
    pub fn write_full_bytes(&mut self, bytes: &[u8]) -> (res: Result<(), CodecError>)
        ensures
            res is Ok,
            final(self).bits() == old(self).bits() + byte_bits(bytes@),
    {
        if self.is_aligned() {
            let ghost old_bytes = self.inner@;
            let mut i: usize = 0;
            while i < bytes.len()
                invariant
                    0 <= i <= bytes@.len(),
                    self.pending() == Seq::<bool>::empty(),
                    self.inner@ == old_bytes + bytes@.take(i as int),
                decreases bytes@.len() - i,
            {
                self.push_byte(bytes[i]);
                assert(old_bytes + bytes@.take(i + 1) =~= (old_bytes + bytes@.take(i as int)).push(bytes@[i as int]));
                i = i + 1;
            }
            proof {
                assert(bytes@.take(bytes@.len() as int) =~= bytes@);
                lemma_byte_bits_append(old_bytes, bytes@);
                assert(self.bits() =~= byte_bits(self.inner@));
                assert(old(self).bits() =~= byte_bits(old_bytes));
            }
        } else {
            let ghost start = self.bits();
            let mut i: usize = 0;
            while i < bytes.len()
                invariant
                    0 <= i <= bytes@.len(),
                    start == old(self).bits(),
                    self.bits() == start + byte_bits(bytes@.take(i as int)),
                decreases bytes@.len() - i,
            {
                let b = bytes[i];
                proof {
                    lemma_bit_widths();
                }
                let r = self.write_bits(b, 8);
                proof {
                    lemma_byte_bits_push(bytes@.take(i as int), b);
                    assert(bytes@.take(i + 1) =~= bytes@.take(i as int).push(b));
                }
                i = i + 1;
            }
            proof {
                assert(bytes@.take(bytes@.len() as int) =~= bytes@);
            }
        }
        Ok(())
    }

    /// Whether the bits written so far fill whole bytes.
    pub fn is_aligned(&self) -> (r: bool)
        ensures
            r == (self.pending().len() == 0),
    {
        proof {
            use_type_invariant(self);
            lemma_bits_of_len(self.current_byte as nat / pow2((8 - self.bit_count) as nat), self.bit_count as nat);
        }
        self.bit_count == 0
    }

    /// Pads the bits written so far with zeros to a byte boundary.
    pub fn align(&mut self) -> (res: Result<(), CodecError>)
        ensures
            res is Ok,
            final(self).pending().len() == 0,
            final(self).bits() == old(self).bits() + Seq::new(
                if old(self).pending().len() == 0 { 0 } else { (8 - old(self).pending().len()) as nat },
                |i: int| false,
            ),
    {
        proof {
            use_type_invariant(&*self);
            lemma2_to64();
            lemma_bits_of_len(self.current_byte as nat / pow2((8 - self.bit_count) as nat), self.bit_count as nat);
        }
        if self.bit_count > 0 {
            let ghost n = self.bit_count as nat;
            let ghost old_bytes = self.inner@;
            let ghost cb = self.current_byte as nat;
            self.push_byte(self.current_byte);
            self.current_byte = 0;
            proof {
                lemma_pow2_pos(8);
                assert(0nat % pow2(8) == 0);
            }
            self.bit_count = 0;
            proof {
                lemma_byte_bits_push(old_bytes, cb as u8);
                lemma_bits_of_split(cb, n, (8 - n) as nat);
                lemma_bits_of_mod(cb, (8 - n) as nat);
                lemma_bits_of_zero((8 - n) as nat);
                assert(pow2(0) == 1);
                assert(self.pending() =~= Seq::<bool>::empty());
                assert(self.bits() =~= old(self).bits() + Seq::new((8 - n) as nat, |i: int| false));
            }
        } else {
            proof {
                assert(old(self).bits() + Seq::new(0, |i: int| false) =~= old(self).bits());
            }
        }
        Ok(())
    }

    /// Pads to a byte boundary; the buffer then holds everything written.
    /// Always call this when done writing.
    pub fn flush(&mut self) -> (res: Result<(), CodecError>)
        ensures
            res is Ok,
            final(self).pending().len() == 0,
            final(self).bits() == old(self).bits() + Seq::new(
                if old(self).pending().len() == 0 { 0 } else { (8 - old(self).pending().len()) as nat },
                |i: int| false,
            ),
    {
        self.align()
    }

    /// The bytes written. Bits not yet padded to a byte are dropped: call
    /// `flush` first.
    pub fn into_inner(self) -> (r: Vec<u8>)
        ensures
            r@ == self.bytes(),
    {
        self.inner
    }

    /// Appends raw bytes to a writer that stands on a byte boundary.
    pub fn write_all(&mut self, buf: &[u8]) -> (res: Result<(), CodecError>)
        requires
            old(self).pending().len() == 0,
        ensures
            res is Ok,
            final(self).bytes() == old(self).bytes() + buf@,
            final(self).pending().len() == 0,
    {
        let ghost old_bytes = self.inner@;
        let mut i: usize = 0;
        while i < buf.len()
            invariant
                0 <= i <= buf@.len(),
                self.pending() == Seq::<bool>::empty(),
                self.inner@ == old_bytes + buf@.take(i as int),
            decreases buf@.len() - i,
        {
            self.push_byte(buf[i]);
            assert(old_bytes + buf@.take(i + 1) =~= (old_bytes + buf@.take(i as int)).push(buf@[i as int]));
            i = i + 1;
        }
        assert(buf@.take(buf@.len() as int) =~= buf@);
        Ok(())
    }
}

} // verus!
