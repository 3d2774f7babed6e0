use lib::net::{Ipv4Addr, Ipv6Addr, SocketAddr, SocketAddrV4, SocketAddrV6};
use lib::{BitDecode, BitEncode, BitReader, BitWriter, CodecError};

fn encode_to_vec<T: BitEncode>(v: &T) -> Vec<u8> {
    let mut w = BitWriter::new(Vec::new());
    v.encode(&mut w).unwrap();
    w.flush().unwrap();
    w.into_inner()
}

fn decode_from_bytes<T: BitDecode>(bytes: &[u8]) -> Result<T, CodecError> {
    let mut r = BitReader::new(bytes);
    T::decode(&mut r)
}

fn roundtrip<T: BitEncode + BitDecode>(v: &T) -> T {
    decode_from_bytes(&encode_to_vec(v)).unwrap()
}

fn v4(a: u8, b: u8, c: u8, d: u8) -> Ipv4Addr {
    Ipv4Addr { octets: [a, b, c, d] }
}

fn v6(segments: [u16; 8]) -> Ipv6Addr {
    let mut octets = [0u8; 16];
    for (i, s) in segments.iter().enumerate() {
        octets[2 * i] = (s >> 8) as u8;
        octets[2 * i + 1] = *s as u8;
    }
    Ipv6Addr { octets }
}

fn localhost_v4() -> Ipv4Addr {
    v4(127, 0, 0, 1)
}

fn localhost_v6() -> Ipv6Addr {
    v6([0, 0, 0, 0, 0, 0, 0, 1])
}

#[test]
fn ipv4_roundtrip() {
    assert_eq!(roundtrip(&localhost_v4()), localhost_v4());
    assert_eq!(roundtrip(&v4(0, 0, 0, 0)), v4(0, 0, 0, 0));
    assert_eq!(roundtrip(&v4(192, 168, 1, 1)), v4(192, 168, 1, 1));
}

#[test]
fn ipv4_is_4_bytes() {
    assert_eq!(encode_to_vec(&localhost_v4()).len(), 4);
}

#[test]
fn ipv6_roundtrip() {
    assert_eq!(roundtrip(&localhost_v6()), localhost_v6());
    let addr = v6([0xfe80, 0, 0, 0, 0, 0, 0, 1]);
    assert_eq!(roundtrip(&addr), addr);
}

#[test]
fn ipv6_is_16_bytes() {
    assert_eq!(encode_to_vec(&localhost_v6()).len(), 16);
}

#[test]
fn socket_addr_v4_roundtrip() {
    let addr = SocketAddrV4 { ip: v4(10, 0, 0, 1), port: 8080 };
    assert_eq!(roundtrip(&addr), addr);
}

#[test]
fn socket_addr_v6_roundtrip() {
    let addr = SocketAddrV6 { ip: localhost_v6(), port: 443, flowinfo: 0, scope_id: 0 };
    assert_eq!(roundtrip(&addr), addr);
}

#[test]
fn socket_addr_enum_roundtrip() {
    let v4a = SocketAddr::V4(SocketAddrV4 { ip: localhost_v4(), port: 8080 });
    let v6a = SocketAddr::V6(SocketAddrV6 { ip: localhost_v6(), port: 443, flowinfo: 0, scope_id: 0 });
    assert_eq!(roundtrip(&v4a), v4a);
    assert_eq!(roundtrip(&v6a), v6a);
}

#[test]
fn socket_addr_v4_smaller_than_v6() {
    let v4a = SocketAddr::V4(SocketAddrV4 { ip: v4(0, 0, 0, 0), port: 0 });
    let v6a = SocketAddr::V6(SocketAddrV6 { ip: v6([0; 8]), port: 0, flowinfo: 0, scope_id: 0 });
    assert!(encode_to_vec(&v4a).len() < encode_to_vec(&v6a).len());
}

#[test]
fn socket_addr_exact_bytes() {
    let a = SocketAddr::V4(SocketAddrV4 { ip: v4(1, 2, 3, 4), port: 0x0102 });
    assert_eq!(encode_to_vec(&a), vec![0x00, 0x81, 0x01, 0x82, 0x01, 0x00, 0x80]);
}

#[test]
fn flow_label_and_scope_are_not_written() {
    let addr = SocketAddrV6 { ip: localhost_v6(), port: 1, flowinfo: 7, scope_id: 9 };
    let back = roundtrip(&addr);
    assert_eq!((back.ip, back.port, back.flowinfo, back.scope_id), (addr.ip, 1, 0, 0));
}

#[test]
fn short_address_is_eof() {
    assert_eq!(decode_from_bytes::<Ipv6Addr>(&[0u8; 15]).err(), Some(CodecError::UnexpectedEof));
    assert_eq!(decode_from_bytes::<SocketAddrV4>(&[1, 2, 3, 4, 5]).err(), Some(CodecError::UnexpectedEof));
}
