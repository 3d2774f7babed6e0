//! Network addresses and their codecs: an address is written as its octets,
//! a socket address as its address and then its port, and a `SocketAddr`
//! as one bit, set for IPv6, before the socket address.
use vstd::prelude::*;

verus! {

use crate::bits::{byte_bits, lemma_byte_bits_len};
use crate::codec::{Modeled, RoundTrip};
use crate::dec::{BitDecode, BitReader, lemma_consumed_skip, lemma_consumed_trans};
use crate::enc::{BitEncode, BitWriter, lemma_prefix_trans};
use crate::error::CodecError;
use crate::le::{bytes_of_bits, lemma_bytes_of_byte_bits};
use crate::seqs::vec_into_array;
use crate::tuples::then_enc;

/// An IPv4 address, by its four octets.
#[derive(Clone, Copy, Debug, PartialEq, Eq)]
pub struct Ipv4Addr {
    pub octets: [u8; 4],
}

/// An IPv6 address, by its sixteen octets.
#[derive(Clone, Copy, Debug, PartialEq, Eq)]
pub struct Ipv6Addr {
    pub octets: [u8; 16],
}

/// An IPv4 address and a port.
#[derive(Clone, Copy, Debug, PartialEq, Eq)]
pub struct SocketAddrV4 {
    pub ip: Ipv4Addr,
    pub port: u16,
}

/// An IPv6 address, a port, a flow label and a scope.
#[derive(Clone, Copy, Debug, PartialEq, Eq)]
pub struct SocketAddrV6 {
    pub ip: Ipv6Addr,
    pub port: u16,
    pub flowinfo: u32,
    pub scope_id: u32,
}

/// A socket address of either family.
#[derive(Clone, Copy, Debug, PartialEq, Eq)]
pub enum SocketAddr {
    V4(SocketAddrV4),
    V6(SocketAddrV6),
}

/// Reading `n` octets: the octets and the bits they take.
pub open spec fn decode_octets(bits: Seq<bool>, n: nat) -> Result<(Seq<u8>, nat), CodecError> {
    if bits.len() < 8 * n {
        Err(CodecError::UnexpectedEof)
    } else {
        Ok((bytes_of_bits(bits.take(8 * n as int)), 8 * n))
    }
}

/// Octets written as bytes read back as the same octets.
pub proof fn lemma_octets_round_trip(o: Seq<u8>, rest: Seq<bool>)
    ensures
        byte_bits(o).len() == 8 * o.len(),
        decode_octets(byte_bits(o) + rest, o.len()) == Ok::<(Seq<u8>, nat), CodecError>((o, 8 * o.len())),
{
    lemma_byte_bits_len(o);
    assert((byte_bits(o) + rest).take(8 * o.len() as int) =~= byte_bits(o));
    lemma_bytes_of_byte_bits(o);
}

/// Reads `N` octets.
fn read_octets<const N: usize>(r: &mut BitReader) -> (res: Result<[u8; N], CodecError>)
    ensures
        match decode_octets(old(r).remaining(), N as nat) {
            Ok((o, k)) => {
                &&& res matches Ok(a) && a@ == o
                &&& k <= old(r).remaining().len()
                &&& final(r).remaining() == old(r).remaining().skip(k as int)
            },
            Err(e) => res == Err::<[u8; N], CodecError>(e) && final(r).remaining() == Seq::<bool>::empty(),
        },
{
    let mut buf: Vec<u8> = vec![0u8; N];
    r.read_full_bytes(buf.as_mut_slice())?;
    proof {
        lemma_bytes_of_byte_bits(buf@);
    }
    match vec_into_array::<u8, N>(buf) {
        Some(a) => Ok(a),
        None => Err(CodecError::UnexpectedEof),
    }
}

impl Modeled for Ipv4Addr {
    type Model = Seq<u8>;

    open spec fn model(&self) -> Seq<u8> {
        self.octets@
    }
}

impl BitEncode for Ipv4Addr {
    /// The four octets.
    open spec fn spec_encode(m: Seq<u8>) -> Result<Seq<bool>, CodecError> {
        Ok(byte_bits(m))
    }

    fn encode(&self, w: &mut BitWriter) -> (res: Result<(), CodecError>) {
        w.write_full_bytes(self.octets.as_slice())
    }
}

impl BitDecode for Ipv4Addr {
    open spec fn spec_decode(bits: Seq<bool>) -> Result<(Seq<u8>, nat), CodecError> {
        decode_octets(bits, 4)
    }

    fn decode(r: &mut BitReader) -> (res: Result<Self, CodecError>) {
        match read_octets::<4>(r) {
            Ok(octets) => Ok(Ipv4Addr { octets }),
            Err(e) => {
                proof {
                    assert(old(r).remaining().skip(old(r).remaining().len() as int) =~= Seq::<bool>::empty());
                }
                Err(e)
            },
        }
    }
}

impl RoundTrip for Ipv4Addr {
    /// Four octets, which every address has.
    open spec fn spec_round_trips(m: Seq<u8>) -> bool {
        m.len() == 4
    }

    proof fn lemma_round_trip(x: &Self, rest: Seq<bool>) {
        lemma_octets_round_trip(x.octets@, rest);
    }
}

impl Modeled for Ipv6Addr {
    type Model = Seq<u8>;

    open spec fn model(&self) -> Seq<u8> {
        self.octets@
    }
}

impl BitEncode for Ipv6Addr {
    /// The sixteen octets.
    open spec fn spec_encode(m: Seq<u8>) -> Result<Seq<bool>, CodecError> {
        Ok(byte_bits(m))
    }

    fn encode(&self, w: &mut BitWriter) -> (res: Result<(), CodecError>) {
        w.write_full_bytes(self.octets.as_slice())
    }
}

impl BitDecode for Ipv6Addr {
    open spec fn spec_decode(bits: Seq<bool>) -> Result<(Seq<u8>, nat), CodecError> {
        decode_octets(bits, 16)
    }

    fn decode(r: &mut BitReader) -> (res: Result<Self, CodecError>) {
        match read_octets::<16>(r) {
            Ok(octets) => Ok(Ipv6Addr { octets }),
            Err(e) => {
                proof {
                    assert(old(r).remaining().skip(old(r).remaining().len() as int) =~= Seq::<bool>::empty());
                }
                Err(e)
            },
        }
    }
}

impl RoundTrip for Ipv6Addr {
    /// Sixteen octets, which every address has.
    open spec fn spec_round_trips(m: Seq<u8>) -> bool {
        m.len() == 16
    }

    proof fn lemma_round_trip(x: &Self, rest: Seq<bool>) {
        lemma_octets_round_trip(x.octets@, rest);
    }
}

/// The bits of an address's octets, then of a port.
pub open spec fn encode_socket(octets: Seq<u8>, port: u16) -> Seq<bool> {
    byte_bits(octets) + <u16 as BitEncode>::spec_encode(port)->Ok_0
}

/// Reading `n` octets and then a port.
pub open spec fn decode_socket(bits: Seq<bool>, n: nat) -> Result<((Seq<u8>, u16), nat), CodecError> {
    match decode_octets(bits, n) {
        Err(e) => Err(e),
        Ok((o, k0)) => match <u16 as BitDecode>::spec_decode(bits.skip(k0 as int)) {
            Err(e) => Err(e),
            Ok((p, k1)) => Ok(((o, p), k0 + k1)),
        },
    }
}

/// A socket address written as octets and port reads back as them.
pub proof fn lemma_socket_round_trip(o: Seq<u8>, port: u16, rest: Seq<bool>)
    ensures
        decode_socket(encode_socket(o, port) + rest, o.len()) == Ok::<((Seq<u8>, u16), nat), CodecError>(
            ((o, port), encode_socket(o, port).len()),
        ),
{
    let e0 = byte_bits(o);
    let e1 = <u16 as BitEncode>::spec_encode(port)->Ok_0;
    lemma_octets_round_trip(o, e1 + rest);
    <u16 as RoundTrip>::lemma_round_trip(&port, rest);
    assert(encode_socket(o, port) + rest =~= e0 + (e1 + rest));
    assert((e0 + (e1 + rest)).skip(e0.len() as int) =~= e1 + rest);
}

/// Writes the octets of an address, then a port.
fn write_socket(octets: &[u8], port: u16, w: &mut BitWriter) -> (res: Result<(), CodecError>)
    ensures
        res is Ok,
        final(w).bits() == old(w).bits() + encode_socket(octets@, port),
{
    let ghost start = w.bits();
    w.write_full_bytes(octets)?;
    let ghost mid = w.bits();
    let r = port.encode(w);
    proof {
        let e1 = <u16 as BitEncode>::spec_encode(port)->Ok_0;
        assert(mid + e1 =~= start + encode_socket(octets@, port));
    }
    r
}

/// Reads the `N` octets of an address, then a port.
fn read_socket<const N: usize>(r: &mut BitReader) -> (res: Result<([u8; N], u16), CodecError>)
    ensures
        match decode_socket(old(r).remaining(), N as nat) {
            Ok(((o, p), k)) => {
                &&& res matches Ok((a, q)) && a@ == o && q == p
                &&& k <= old(r).remaining().len()
                &&& final(r).remaining() == old(r).remaining().skip(k as int)
            },
            Err(e) => {
                &&& res == Err::<([u8; N], u16), CodecError>(e)
                &&& crate::dec::consumed_from(old(r).remaining(), final(r).remaining())
            },
        },
{
    let ghost s0 = r.remaining();
    let octets = match read_octets::<N>(r) {
        Ok(a) => a,
        Err(e) => {
            proof {
                assert(r.remaining() =~= s0.skip(s0.len() as int));
            }
            return Err(e);
        },
    };
    let ghost s1 = r.remaining();
    let port = match u16::decode(r) {
        Ok(p) => p,
        Err(e) => {
            proof {
                lemma_consumed_skip(s0, s0.len() - s1.len());
                assert(s1 =~= s0.skip(s0.len() - s1.len()));
                lemma_consumed_trans(s0, s1, r.remaining());
            }
            return Err(e);
        },
    };
    proof {
        let k0 = decode_octets(s0, N as nat)->Ok_0.1;
        let k1 = <u16 as BitDecode>::spec_decode(s1)->Ok_0.1;
        assert(r.remaining() =~= s0.skip((k0 + k1) as int));
    }
    Ok((octets, port))
}

impl Modeled for SocketAddrV4 {
    /// The octets of the address and the port.
    type Model = (Seq<u8>, u16);

    open spec fn model(&self) -> (Seq<u8>, u16) {
        (self.ip.octets@, self.port)
    }
}

impl BitEncode for SocketAddrV4 {
    open spec fn spec_encode(m: (Seq<u8>, u16)) -> Result<Seq<bool>, CodecError> {
        Ok(encode_socket(m.0, m.1))
    }

    fn encode(&self, w: &mut BitWriter) -> (res: Result<(), CodecError>) {
        write_socket(self.ip.octets.as_slice(), self.port, w)
    }
}

impl BitDecode for SocketAddrV4 {
    open spec fn spec_decode(bits: Seq<bool>) -> Result<((Seq<u8>, u16), nat), CodecError> {
        decode_socket(bits, 4)
    }

    fn decode(r: &mut BitReader) -> (res: Result<Self, CodecError>) {
        let (octets, port) = read_socket::<4>(r)?;
        Ok(SocketAddrV4 { ip: Ipv4Addr { octets }, port })
    }
}

impl RoundTrip for SocketAddrV4 {
    open spec fn spec_round_trips(m: (Seq<u8>, u16)) -> bool {
        m.0.len() == 4
    }

    proof fn lemma_round_trip(x: &Self, rest: Seq<bool>) {
        lemma_socket_round_trip(x.ip.octets@, x.port, rest);
    }
}

impl Modeled for SocketAddrV6 {
    /// The octets of the address and the port; the flow label and the scope
    /// are not written.
    type Model = (Seq<u8>, u16);

    open spec fn model(&self) -> (Seq<u8>, u16) {
        (self.ip.octets@, self.port)
    }
}

impl BitEncode for SocketAddrV6 {
    open spec fn spec_encode(m: (Seq<u8>, u16)) -> Result<Seq<bool>, CodecError> {
        Ok(encode_socket(m.0, m.1))
    }

    fn encode(&self, w: &mut BitWriter) -> (res: Result<(), CodecError>) {
        write_socket(self.ip.octets.as_slice(), self.port, w)
    }
}

impl BitDecode for SocketAddrV6 {
    open spec fn spec_decode(bits: Seq<bool>) -> Result<((Seq<u8>, u16), nat), CodecError> {
        decode_socket(bits, 16)
    }

    /// A decoded address has flow label and scope zero.
    fn decode(r: &mut BitReader) -> (res: Result<Self, CodecError>)
        ensures
            res matches Ok(a) ==> a.flowinfo == 0 && a.scope_id == 0,
    {
        let (octets, port) = read_socket::<16>(r)?;
        Ok(SocketAddrV6 { ip: Ipv6Addr { octets }, port, flowinfo: 0, scope_id: 0 })
    }
}

impl RoundTrip for SocketAddrV6 {
    open spec fn spec_round_trips(m: (Seq<u8>, u16)) -> bool {
        m.0.len() == 16
    }

    proof fn lemma_round_trip(x: &Self, rest: Seq<bool>) {
        lemma_socket_round_trip(x.ip.octets@, x.port, rest);
    }
}

impl Modeled for SocketAddr {
    /// Whether it is IPv6, the octets of the address and the port.
    type Model = (bool, Seq<u8>, u16);

    open spec fn model(&self) -> (bool, Seq<u8>, u16) {
        match self {
            SocketAddr::V4(a) => (false, a.ip.octets@, a.port),
            SocketAddr::V6(a) => (true, a.ip.octets@, a.port),
        }
    }
}

impl BitEncode for SocketAddr {
    /// The family bit, then the socket address.
    open spec fn spec_encode(m: (bool, Seq<u8>, u16)) -> Result<Seq<bool>, CodecError> {
        Ok(seq![m.0] + encode_socket(m.1, m.2))
    }

    fn encode(&self, w: &mut BitWriter) -> (res: Result<(), CodecError>) {
        let ghost start = w.bits();
        match self {
            SocketAddr::V4(a) => {
                w.write(&false)?;
                let ghost mid = w.bits();
                let r = a.encode(w);
                proof {
                    assert(mid + encode_socket(a.ip.octets@, a.port) =~= start + (seq![false] + encode_socket(
                        a.ip.octets@,
                        a.port,
                    )));
                }
                r
            },
            SocketAddr::V6(a) => {
                w.write(&true)?;
                let ghost mid = w.bits();
                let r = a.encode(w);
                proof {
                    assert(mid + encode_socket(a.ip.octets@, a.port) =~= start + (seq![true] + encode_socket(
                        a.ip.octets@,
                        a.port,
                    )));
                }
                r
            },
        }
    }
}

impl BitDecode for SocketAddr {
    /// The family bit, then an IPv6 socket address where it is set and an
    /// IPv4 one where it is clear.
    open spec fn spec_decode(bits: Seq<bool>) -> Result<((bool, Seq<u8>, u16), nat), CodecError> {
        if bits.len() < 1 {
            Err(CodecError::UnexpectedEof)
        } else {
            match decode_socket(bits.skip(1), if bits[0] { 16 } else { 4 }) {
                Ok(((o, p), k)) => Ok(((bits[0], o, p), k + 1)),
                Err(e) => Err(e),
            }
        }
    }

    fn decode(r: &mut BitReader) -> (res: Result<Self, CodecError>) {
        let ghost start = r.remaining();
        let tag = r.read::<bool>()?;
        let ghost mid = r.remaining();
        proof {
            assert(mid == start.skip(1));
        }
        if tag {
            let res = SocketAddrV6::decode(r);
            proof {
                if let Ok((m, k)) = decode_socket(mid, 16) {
                    assert(mid.skip(k as int) =~= start.skip(k + 1 as int));
                } else {
                    assert(r.remaining() =~= start.skip(start.len() - r.remaining().len()));
                }
            }
            match res {
                Ok(a) => Ok(SocketAddr::V6(a)),
                Err(e) => Err(e),
            }
        } else {
            let res = SocketAddrV4::decode(r);
            proof {
                if let Ok((m, k)) = decode_socket(mid, 4) {
                    assert(mid.skip(k as int) =~= start.skip(k + 1 as int));
                } else {
                    assert(r.remaining() =~= start.skip(start.len() - r.remaining().len()));
                }
            }
            match res {
                Ok(a) => Ok(SocketAddr::V4(a)),
                Err(e) => Err(e),
            }
        }
    }
}

impl RoundTrip for SocketAddr {
    /// Sixteen octets for IPv6 and four for IPv4, as every address has.
    open spec fn spec_round_trips(m: (bool, Seq<u8>, u16)) -> bool {
        m.1.len() == if m.0 { 16nat } else { 4nat }
    }

    proof fn lemma_round_trip(x: &Self, rest: Seq<bool>) {
        let m = x.model();
        let e = encode_socket(m.1, m.2);
        lemma_socket_round_trip(m.1, m.2, rest);
        assert(seq![m.0] + e + rest =~= seq![m.0] + (e + rest));
        assert((seq![m.0] + (e + rest)).skip(1) =~= e + rest);
    }
}

} // verus!
