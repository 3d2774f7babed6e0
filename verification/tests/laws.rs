use lib::layout::{disc_bit_count, field_bit_count, read_variant_index, LayoutError};
use lib::{BitDecode, BitEncode, BitReader, BitWriter, CodecError, ErrorKind};

#[test]
fn read_back_low_bits_of_a_field() {
    let mut w = BitWriter::new(Vec::new());
    w.write_bits(0x1FFu16, 8).unwrap();
    w.write_bits(0b1011u8, 3).unwrap();
    w.flush().unwrap();
    let bytes = w.into_inner();
    let mut r = BitReader::new(&bytes[..]);
    assert_eq!(r.read_bits::<u16>(8).unwrap(), 0xFF);
    assert_eq!(r.read_bits::<u8>(3).unwrap(), 0b011);
    assert_eq!(r.read_bits::<u8>(5).unwrap(), 0);
}

#[test]
fn values_read_back_in_order_with_padding_ignored() {
    let mut w = BitWriter::new(Vec::new());
    w.write(&true).unwrap();
    w.write(&0xBEEFu16).unwrap();
    w.write(&String::from("ok")).unwrap();
    w.write(&Some(-3i8)).unwrap();
    w.flush().unwrap();
    let mut bytes = w.into_inner();
    bytes.push(0xFF);
    let mut r = BitReader::new(&bytes[..]);
    assert!(r.read::<bool>().unwrap());
    assert_eq!(r.read::<u16>().unwrap(), 0xBEEF);
    assert_eq!(r.read::<String>().unwrap(), "ok");
    assert_eq!(r.read::<Option<i8>>().unwrap(), Some(-3));
}

#[test]
fn integers_are_little_endian_bytes() {
    let mut w = BitWriter::new(Vec::new());
    w.write(&0x0102u16).unwrap();
    w.write(&-2i32).unwrap();
    w.write(&1usize).unwrap();
    let bytes = w.into_inner();
    assert_eq!(bytes, vec![0x02, 0x01, 0xFE, 0xFF, 0xFF, 0xFF, 1, 0, 0, 0, 0, 0, 0, 0]);
}

#[test]
fn option_and_result_tags() {
    let mut w = BitWriter::new(Vec::new());
    w.write(&Some(true)).unwrap();
    w.write(&None::<bool>).unwrap();
    let ok: Result<bool, u8> = Ok(false);
    w.write(&ok).unwrap();
    w.flush().unwrap();
    assert_eq!(w.into_inner(), vec![0b1101_0000]);
}

#[test]
fn strings_are_length_then_utf8() {
    let mut w = BitWriter::new(Vec::new());
    w.write("é").unwrap();
    assert_eq!(w.into_inner(), vec![2, 0xC3, 0xA9]);
}

#[test]
fn decode_errors_have_their_kinds() {
    let mut r = BitReader::new(&[0xFFu8, 0xFF, 0xFF, 0xFF][..]);
    let e = r.read::<char>().unwrap_err();
    assert_eq!(e, CodecError::InvalidChar);
    assert_eq!(e.kind(), ErrorKind::InvalidData);

    let bytes = [2u8, 0xFF, 0xFE];
    let mut r = BitReader::new(&bytes[..]);
    assert_eq!(r.read::<String>().unwrap_err(), CodecError::InvalidUtf8);

    let bytes = [1u8, 0, 0, 0, 0, 0, 0, 0, 0x00, 0xCA, 0x9A, 0x3B];
    let mut r = BitReader::new(&bytes[..]);
    let e = r.read::<std::time::Duration>().unwrap_err();
    assert_eq!(e, CodecError::InvalidNanos);
    assert_eq!(e.kind(), ErrorKind::InvalidData);

    let mut r = BitReader::new(&[0x80u8][..]);
    assert_eq!(r.read::<Vec<u8>>().unwrap_err(), CodecError::UnexpectedEof);
}

#[test]
fn truncated_array_is_eof() {
    let bytes = [1u8, 2];
    let mut r = BitReader::new(&bytes[..]);
    assert_eq!(r.read::<[u8; 3]>().unwrap_err(), CodecError::UnexpectedEof);
}

#[test]
fn field_widths() {
    assert_eq!(field_bit_count(None), Ok(None));
    assert_eq!(field_bit_count(Some(1)), Ok(Some(1)));
    assert_eq!(field_bit_count(Some(128)), Ok(Some(128)));
    assert_eq!(field_bit_count(Some(0)), Err(LayoutError::FieldBits(0)));
    assert_eq!(field_bit_count(Some(129)), Err(LayoutError::FieldBits(129)));
}

#[test]
fn variant_index_widths() {
    assert_eq!(disc_bit_count(None), Ok(8));
    assert_eq!(disc_bit_count(Some(4)), Ok(4));
    assert_eq!(disc_bit_count(Some(32)), Ok(32));
    assert_eq!(disc_bit_count(Some(0)), Err(LayoutError::DiscBits(0)));
    assert_eq!(disc_bit_count(Some(33)), Err(LayoutError::DiscBits(33)));
}

#[test]
fn variant_index_read_back() {
    let mut w = BitWriter::new(Vec::new());
    w.write_bits(2u32, 4).unwrap();
    w.write_bits(9u32, 4).unwrap();
    let bytes = w.into_inner();
    let mut r = BitReader::new(&bytes[..]);
    assert_eq!(read_variant_index(&mut r, 4, 3), Ok(2));
    assert_eq!(read_variant_index(&mut r, 4, 3), Err(CodecError::UnknownDiscriminant(9)));
    assert_eq!(read_variant_index(&mut r, 4, 3), Err(CodecError::UnexpectedEof));
    assert_eq!(CodecError::UnknownDiscriminant(9).kind(), ErrorKind::InvalidData);
}

#[test]
fn encode_then_decode_through_the_traits() {
    let mut w = BitWriter::new(Vec::new());
    (7u8, -7i64, [true; 3]).encode(&mut w).unwrap();
    w.flush().unwrap();
    let bytes = w.into_inner();
    let mut r = BitReader::new(&bytes[..]);
    assert_eq!(<(u8, i64, [bool; 3])>::decode(&mut r).unwrap(), (7u8, -7i64, [true; 3]));
}

#[test]
fn shared_strings_encode_as_strings() {
    let rc: std::rc::Rc<str> = std::rc::Rc::from("ab");
    let arc: std::sync::Arc<[u8]> = std::sync::Arc::from(vec![9u8]);
    let mut w = BitWriter::new(Vec::new());
    w.write(&rc).unwrap();
    w.write(&arc).unwrap();
    assert_eq!(w.into_inner(), vec![2, b'a', b'b', 1, 9]);
}

#[test]
fn boxed_slices_and_strs_read_back() {
    let mut w = BitWriter::new(Vec::new());
    let s: Box<[i16]> = vec![-1i16, 2].into_boxed_slice();
    let t: Box<str> = "zz".into();
    w.write(&s).unwrap();
    w.write(&t).unwrap();
    let bytes = w.into_inner();
    let mut r = BitReader::new(&bytes[..]);
    assert_eq!(r.read::<Box<[i16]>>().unwrap(), s);
    assert_eq!(r.read::<Box<str>>().unwrap(), t);
}

#[test]
fn array_decode_stops_in_the_failing_item() {
    let mut w = BitWriter::new(Vec::new());
    w.write(&0x41u32).unwrap();
    w.write(&0xD800u32).unwrap();
    w.write(&0x42u32).unwrap();
    let bytes = w.into_inner();
    let mut r = BitReader::new(&bytes[..]);
    assert_eq!(r.read::<[char; 3]>().unwrap_err(), CodecError::InvalidChar);
    assert_eq!(r.read::<u32>().unwrap(), 0x42);
}

#[test]
fn refused_header_leaves_the_reader_after_it() {
    let mut w = BitWriter::new(Vec::new());
    w.write(&-2i8).unwrap();
    w.write(&7u8).unwrap();
    let bytes = w.into_inner();
    let mut r = BitReader::new(&bytes[..]);
    assert_eq!(
        r.read::<lib::CountedSeq<i8, u8>>().err(),
        Some(CodecError::LengthTooLarge)
    );
    assert_eq!(r.read::<u8>().unwrap(), 7);
}

#[test]
fn many_fields_read_back_in_order() {
    let fields: [(u32, u32); 6] = [(0b1, 1), (0x1FF, 9), (5, 3), (0xABCDE, 20), (0, 2), (3, 7)];
    let mut w = BitWriter::new(Vec::new());
    for &(v, c) in &fields {
        w.write_bits(v, c).unwrap();
    }
    w.flush().unwrap();
    let bytes = w.into_inner();
    assert_eq!(bytes.len(), 6);
    let mut r = BitReader::new(&bytes[..]);
    for &(v, c) in &fields {
        assert_eq!(r.read_bits::<u32>(c).unwrap(), v & ((1u32 << c) - 1));
    }
}
