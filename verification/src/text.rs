//! Codecs for text: the UTF-8 length in bytes as a `VarLen`, then the bytes.
use vstd::prelude::*;

verus! {

use vstd::utf8::{encode_utf8, decode_utf8, valid_utf8};
use crate::bits::{byte_bits, lemma_byte_bits_len};
use crate::codec::{Modeled, RoundTrip};
use crate::dec::{BitDecode, BitReader, consumed_from, lemma_consumed_skip};
use crate::enc::{BitEncode, BitWriter};
use crate::error::CodecError;
use crate::le::{bytes_of_bits, lemma_bytes_of_byte_bits};
use crate::seqs::len_header;
use crate::var_len::{VarLen, varlen_bits};
use vstd::string::StringSliceAdditionalSpecFns;

/// The bits of a string: its UTF-8 length cut to 32 bits, then its UTF-8 bytes.
pub open spec fn encode_text(chars: Seq<char>) -> Seq<bool> {
    varlen_bits(len_header(encode_utf8(chars).len())) + byte_bits(encode_utf8(chars))
}

/// Reading a string: the length, that many bytes, which must be UTF-8.
pub open spec fn decode_text(bits: Seq<bool>) -> Result<(Seq<char>, nat), CodecError> {
    match <VarLen as BitDecode>::spec_decode(bits) {
        Ok((len, k)) => {
            let body = bits.skip(k as int);
            if body.len() < 8 * len {
                Err(CodecError::UnexpectedEof)
            } else {
                let bytes = bytes_of_bits(body.take(8 * len as int));
                if valid_utf8(bytes) {
                    Ok((decode_utf8(bytes), k + 8 * (len as nat)))
                } else {
                    Err(CodecError::InvalidUtf8)
                }
            }
        },
        Err(e) => Err(e),
    }
}

/// Writes the text of `s`.
fn write_text(s: &str, w: &mut BitWriter) -> (res: Result<(), CodecError>)
    ensures
        res is Ok,
        final(w).bits() == old(w).bits() + encode_text(s@),
{
    let ghost start = w.bits();
    let bytes = s.as_bytes();
    VarLen(bytes.len() as u32).encode(w)?;
    let r = w.write_full_bytes(bytes);
    proof {
        assert(w.bits() =~= start + encode_text(s@));
    }
    r
}

/// `String::from_utf8`: the string the bytes spell, or `None` when they are
/// not UTF-8.
#[verifier::external_body]
fn string_from_utf8(bytes: Vec<u8>) -> (r: Option<String>)
    ensures
        r is Some <==> valid_utf8(bytes@),
        r matches Some(s) ==> s@ == decode_utf8(bytes@),
{
    String::from_utf8(bytes).ok()
}

/// Reads a string.
fn read_text(r: &mut BitReader) -> (res: Result<String, CodecError>)
    ensures
        match decode_text(old(r).remaining()) {
            Ok((m, n)) => {
                &&& n <= old(r).remaining().len()
                &&& res matches Ok(x) && x@ == m
                &&& final(r).remaining() == old(r).remaining().skip(n as int)
            },
            Err(e) => {
                &&& res matches Err(e2) && e2 == e
                &&& consumed_from(old(r).remaining(), final(r).remaining())
            },
        },
{
    let ghost start = r.remaining();
    let len = VarLen::decode(r)?.0 as usize;
    let ghost mid = r.remaining();
    let mut buf = vec![0u8; len];
    match r.read_full_bytes(buf.as_mut_slice()) {
        Ok(()) => {},
        Err(e) => {
            proof {
                assert(start.skip(start.len() as int) =~= Seq::<bool>::empty());
            }
            return Err(e);
        },
    }
    proof {
        lemma_bytes_of_byte_bits(buf@);
        assert(mid.skip(8 * len as int) =~= start.skip(start.len() - r.remaining().len()));
    }
    match string_from_utf8(buf) {
        Some(s) => Ok(s),
        None => {
            proof {
                lemma_consumed_skip(start, start.len() - r.remaining().len());
            }
            Err(CodecError::InvalidUtf8)
        },
    }
}

/// Decoding the encoding of a string of fewer than `2^32` UTF-8 bytes gives it back.
pub proof fn lemma_text_round_trip(chars: Seq<char>, rest: Seq<bool>)
    requires
        encode_utf8(chars).len() < 0x1_0000_0000,
    ensures
        decode_text(encode_text(chars) + rest) == Ok::<(Seq<char>, nat), CodecError>(
            (chars, encode_text(chars).len()),
        ),
{
    let bytes = encode_utf8(chars);
    let header = varlen_bits(len_header(bytes.len()));
    let body = byte_bits(bytes);
    vstd::arithmetic::power2::lemma2_to64();
    assert(len_header(bytes.len()) == bytes.len());
    crate::var_len::lemma_varlen_parse_bits(bytes.len(), 0, body + rest);
    crate::var_len::lemma_varlen_parse_bound(header + (body + rest), 0);
    assert(header + body + rest =~= header + (body + rest));
    assert((header + (body + rest)).skip(header.len() as int) =~= body + rest);
    lemma_byte_bits_len(bytes);
    assert((body + rest).take(8 * bytes.len() as int) =~= body);
    lemma_bytes_of_byte_bits(bytes);
    vstd::utf8::encode_utf8_valid_utf8(chars);
    vstd::utf8::encode_utf8_decode_utf8(chars);
}

impl Modeled for String {
    type Model = Seq<char>;

    open spec fn model(&self) -> Seq<char> {
        self@
    }
}

impl Modeled for str {
    type Model = Seq<char>;

    open spec fn model(&self) -> Seq<char> {
        self@
    }
}

impl BitEncode for String {
    open spec fn spec_encode(m: Seq<char>) -> Result<Seq<bool>, CodecError> {
        Ok(encode_text(m))
    }

    fn encode(&self, w: &mut BitWriter) -> (res: Result<(), CodecError>) {
        write_text(self.as_str(), w)
    }
}

impl BitEncode for str {
    open spec fn spec_encode(m: Seq<char>) -> Result<Seq<bool>, CodecError> {
        Ok(encode_text(m))
    }

    fn encode(&self, w: &mut BitWriter) -> (res: Result<(), CodecError>) {
        write_text(self, w)
    }
}

impl BitDecode for String {
    open spec fn spec_decode(bits: Seq<bool>) -> Result<(Seq<char>, nat), CodecError> {
        decode_text(bits)
    }

    fn decode(r: &mut BitReader) -> (res: Result<Self, CodecError>) {
        read_text(r)
    }
}

impl RoundTrip for String {
    /// Fewer than `2^32` bytes of UTF-8.
    open spec fn spec_round_trips(m: Seq<char>) -> bool {
        encode_utf8(m).len() < 0x1_0000_0000
    }

    proof fn lemma_round_trip(x: &Self, rest: Seq<bool>) {
        lemma_text_round_trip(x@, rest);
    }
}

} // verus!
