use lib::{BitDecode, BitEncode, BitReader, BitWriter, CodecError, CountedSeq, LenHeader};

fn encode_to_vec<T: BitEncode>(v: &T) -> Vec<u8> {
    let mut w = BitWriter::new(Vec::new());
    v.encode(&mut w).unwrap();
    w.flush().unwrap();
    w.into_inner()
}

fn decode_from_bytes<T: BitDecode>(bytes: &[u8]) -> Result<T, CodecError> {
    let mut r = BitReader::new(bytes);
    T::decode(&mut r)
}

fn roundtrip<T: BitEncode + BitDecode>(v: &T) -> T {
    decode_from_bytes(&encode_to_vec(v)).unwrap()
}

#[test]
fn test_empty() {
    let s: CountedSeq<u16, u32> = CountedSeq::new(vec![]);
    let bytes = encode_to_vec(&s);
    let decoded: CountedSeq<u16, u32> = decode_from_bytes(&bytes).unwrap();
    assert!(decoded.inner.is_empty());
}

#[test]
fn test_roundtrip() {
    let s: CountedSeq<u8, u16> = CountedSeq::new(vec![100, 200, 300]);
    let decoded: CountedSeq<u8, u16> = roundtrip(&s);
    assert_eq!(decoded.inner, vec![100, 200, 300]);
}

#[test]
fn test_length_overflow_encode() {
    let s: CountedSeq<u8, u8> = CountedSeq::new(vec![0; 256]);
    let mut w = BitWriter::new(Vec::new());
    assert!(
        s.encode(&mut w).is_err(),
        "should reject length that overflows H"
    );
}

#[test]
fn header_is_written_in_its_own_type() {
    let s: CountedSeq<u16, u8> = CountedSeq::new(vec![7, 8]);
    assert_eq!(encode_to_vec(&s), vec![2, 0, 7, 8]);
    let t: CountedSeq<u8, bool> = CountedSeq::new(vec![true, false, true]);
    assert_eq!(encode_to_vec(&t), vec![3, 0b1010_0000]);
}

#[test]
fn length_overflow_writes_nothing() {
    let s: CountedSeq<i8, u8> = CountedSeq::new(vec![0; 128]);
    let mut w = BitWriter::new(Vec::new());
    assert_eq!(s.encode(&mut w).unwrap_err(), CodecError::LengthOverflow);
    assert!(w.into_inner().is_empty());
    let ok: CountedSeq<i8, u8> = CountedSeq::new(vec![1; 127]);
    assert_eq!(roundtrip(&ok).inner, vec![1; 127]);
}

#[test]
fn negative_header_is_refused() {
    let bytes = encode_to_vec(&-1i8);
    let r = decode_from_bytes::<CountedSeq<i8, u8>>(&bytes);
    assert_eq!(r.err(), Some(CodecError::LengthTooLarge));
}

#[test]
fn header_longer_than_input_is_eof() {
    let bytes = encode_to_vec(&5u8);
    let r = decode_from_bytes::<CountedSeq<u8, u8>>(&bytes);
    assert_eq!(r.err(), Some(CodecError::UnexpectedEof));
}

#[test]
fn header_conversions() {
    assert_eq!(<u8 as LenHeader>::from_len(255), Some(255u8));
    assert_eq!(<u8 as LenHeader>::from_len(256), None);
    assert_eq!(<i16 as LenHeader>::from_len(40000), None);
    assert_eq!(<u64 as LenHeader>::from_len(40000), Some(40000u64));
    assert_eq!(<i32 as LenHeader>::to_len(&-3), None);
    assert_eq!(<u128 as LenHeader>::to_len(&u128::MAX), None);
    assert_eq!(<u16 as LenHeader>::to_len(&9), Some(9usize));
}
