use lib::{BitDecode, BitEncode, BitReader, BitWriter, CodecError, VarLen};

fn encode_to_vec<T: BitEncode>(v: &T) -> Vec<u8> {
    let mut w = BitWriter::new(Vec::new());
    v.encode(&mut w).unwrap();
    w.flush().unwrap();
    w.into_inner()
}

fn decode_from_bytes<T: BitDecode>(bytes: &[u8]) -> Result<T, CodecError> {
    let mut r = BitReader::new(bytes);
    T::decode(&mut r)
}

fn roundtrip<T: BitEncode + BitDecode>(v: &T) -> T {
    decode_from_bytes(&encode_to_vec(v)).unwrap()
}

#[test]
fn test_zero() {
    let rt = roundtrip(&VarLen(0));
    assert_eq!(rt.0, 0);
}

#[test]
fn test_one_byte_max() {
    let rt = roundtrip(&VarLen(127));
    assert_eq!(rt.0, 127);
}

#[test]
fn test_two_byte_min() {
    let rt = roundtrip(&VarLen(128));
    assert_eq!(rt.0, 128);
}

#[test]
fn test_u32_max() {
    let rt = roundtrip(&VarLen(u32::MAX));
    assert_eq!(rt.0, u32::MAX);
}

#[test]
fn test_each_boundary() {
    for &val in &[
        0,
        127,
        128,
        16383,
        16384,
        2097151,
        2097152,
        268435455,
        268435456,
        u32::MAX,
    ] {
        let rt = roundtrip(&VarLen(val));
        assert_eq!(rt.0, val, "roundtrip failed for {val}");
    }
}

#[test]
fn test_decode_overflow_crafted() {
    let mut w = BitWriter::new(Vec::new());
    for _ in 0..6 {
        w.write_bits(1u8, 1).unwrap();
        w.write_bits(1u8, 7).unwrap();
    }
    w.flush().unwrap();
    let bytes = w.into_inner();
    let result = decode_from_bytes::<VarLen>(&bytes);
    assert!(
        result.is_err(),
        "should reject VarLen with too many continuation bytes"
    );
}

#[test]
fn test_decode_upper_bits_overflow() {
    let mut w = BitWriter::new(Vec::new());
    for _ in 0..4 {
        w.write_bits(1u8, 1).unwrap();
        w.write_bits(0u8, 7).unwrap();
    }
    w.write_bits(0u8, 1).unwrap();
    w.write_bits(0x10u8, 7).unwrap();
    w.flush().unwrap();
    let bytes = w.into_inner();

    let result = decode_from_bytes::<VarLen>(&bytes);
    if let Ok(v) = result {
        assert_eq!(
            v.0, 0,
            "decoder silently truncated overflow bits — this is a bug"
        );
        panic!(
            "VarLen decoder should reject values that overflow u32, but it silently truncated"
        );
    }
}

#[test]
fn size_grows_one_byte_per_seven_bits() {
    let cases: [(u32, usize); 10] = [
        (0, 1),
        (127, 1),
        (128, 2),
        (16383, 2),
        (16384, 3),
        (2097151, 3),
        (2097152, 4),
        (268435455, 4),
        (268435456, 5),
        (u32::MAX, 5),
    ];
    for &(val, len) in &cases {
        assert_eq!(encode_to_vec(&VarLen(val)).len(), len, "size of {val}");
    }
}

#[test]
fn exact_bytes() {
    assert_eq!(encode_to_vec(&VarLen(5)), vec![0x05]);
    assert_eq!(encode_to_vec(&VarLen(300)), vec![0x80 | 44, 2]);
    assert_eq!(encode_to_vec(&VarLen(u32::MAX)), vec![0xFF, 0xFF, 0xFF, 0xFF, 0x0F]);
}

#[test]
fn overflow_errors_are_distinct() {
    let too_long = [0x81u8, 0x81, 0x81, 0x81, 0x81, 0x01];
    assert_eq!(decode_from_bytes::<VarLen>(&too_long).err(), Some(CodecError::VarLenTooLong));
    let upper = [0x80u8, 0x80, 0x80, 0x80, 0x10];
    assert_eq!(decode_from_bytes::<VarLen>(&upper).err(), Some(CodecError::VarLenOverflow));
    let upper_cont = [0x80u8, 0x80, 0x80, 0x80, 0x90];
    assert_eq!(decode_from_bytes::<VarLen>(&upper_cont).err(), Some(CodecError::VarLenOverflow));
    let top_ok = [0x80u8, 0x80, 0x80, 0x80, 0x0F];
    assert_eq!(decode_from_bytes::<VarLen>(&top_ok).unwrap().0, 0xF000_0000);
    let short = [0x80u8];
    assert_eq!(decode_from_bytes::<VarLen>(&short).err(), Some(CodecError::UnexpectedEof));
}
