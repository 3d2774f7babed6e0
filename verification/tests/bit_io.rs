use lib::{BitReader, BitWriter, CodecError, ErrorKind};

#[test]
fn test_read_bits_zero_count_errors() {
    let data = [0u8];
    let mut r = BitReader::new(&data[..]);
    assert!(r.read_bits::<u8>(0).is_err());
}

#[test]
fn test_read_bits_over_type_width_errors() {
    let data = [0u8, 0u8];
    let mut r = BitReader::new(&data[..]);
    assert!(r.read_bits::<u8>(9).is_err());
}

#[test]
fn test_cross_byte_boundary() {
    let mut w = BitWriter::new(Vec::new());
    w.write_bits(0b10101u8, 5).unwrap();
    w.write_bits(0b11001100u8, 8).unwrap();
    w.flush().unwrap();
    let bytes = w.into_inner();

    let mut r = BitReader::new(&bytes[..]);
    assert_eq!(r.read_bits::<u8>(5).unwrap(), 0b10101);
    assert_eq!(r.read_bits::<u8>(8).unwrap(), 0b11001100);
}

#[test]
fn test_eof_mid_read() {
    let data = [0xABu8];
    let mut r = BitReader::new(&data[..]);
    r.read_bits::<u8>(8).unwrap();
    assert!(r.read_bits::<u8>(1).is_err());
}

#[test]
fn test_read_full_bytes_unaligned() {
    let mut w = BitWriter::new(Vec::new());
    w.write_bits(1u8, 1).unwrap();
    w.write_full_bytes(&[0xAB, 0xCD]).unwrap();
    w.flush().unwrap();
    let bytes = w.into_inner();

    let mut r = BitReader::new(&bytes[..]);
    assert_eq!(r.read_bits::<u8>(1).unwrap(), 1);
    let mut out = [0u8; 2];
    r.read_full_bytes(&mut out).unwrap();
    assert_eq!(out, [0xAB, 0xCD]);
}

#[test]
fn test_align_discards_remaining_bits() {
    let data = [0xFFu8, 0x80];
    let mut r = BitReader::new(&data[..]);
    r.read_bits::<u8>(3).unwrap();
    r.align();
    assert_eq!(r.read_bits::<u8>(1).unwrap(), 1);
}

#[test]
fn test_write_bits_zero_count_errors() {
    let mut w = BitWriter::new(Vec::new());
    assert!(w.write_bits(0u8, 0).is_err());
}

#[test]
fn test_write_bits_over_type_width_errors() {
    let mut w = BitWriter::new(Vec::new());
    assert!(w.write_bits(0u8, 9).is_err());
}

#[test]
fn test_align_pads_with_zeros() {
    let mut w = BitWriter::new(Vec::new());
    w.write_bits(0b111u8, 3).unwrap();
    w.align().unwrap();
    let bytes = w.into_inner();
    assert_eq!(bytes, vec![0xE0]);
}

#[test]
fn bad_bit_count_is_invalid_input_and_changes_nothing() {
    let mut w = BitWriter::new(Vec::new());
    w.write_bits(1u8, 1).unwrap();
    let e = w.write_bits(0u16, 17).unwrap_err();
    assert_eq!(e, CodecError::BadBitCount);
    assert_eq!(e.kind(), ErrorKind::InvalidInput);
    assert!(!w.is_aligned());
    w.flush().unwrap();
    assert_eq!(w.into_inner(), vec![0x80]);

    let data = [0xFFu8];
    let mut r = BitReader::new(&data[..]);
    assert_eq!(r.read_bits::<u32>(33).unwrap_err(), CodecError::BadBitCount);
    assert_eq!(r.read_bits::<u8>(8).unwrap(), 0xFF);
}

#[test]
fn eof_is_unexpected_eof_and_consumes_the_rest() {
    let data = [0b1010_0000u8];
    let mut r = BitReader::new(&data[..]);
    assert_eq!(r.read_bits::<u8>(3).unwrap(), 0b101);
    let e = r.read_bits::<u16>(9).unwrap_err();
    assert_eq!(e, CodecError::UnexpectedEof);
    assert_eq!(e.kind(), ErrorKind::UnexpectedEof);
    assert!(r.is_aligned());
    assert!(r.read_bits::<u8>(1).is_err());
}

#[test]
fn write_bits_keeps_only_the_low_bits() {
    let mut w = BitWriter::new(Vec::new());
    w.write_bits(0xFFu8, 4).unwrap();
    w.write_bits(0x1234u16, 4).unwrap();
    w.flush().unwrap();
    assert_eq!(w.into_inner(), vec![0xF4]);
}

#[test]
fn wide_fields_across_bytes() {
    let mut w = BitWriter::new(Vec::new());
    w.write_bits(1u8, 1).unwrap();
    w.write_bits(u128::MAX, 128).unwrap();
    w.write_bits(0x1_2345_6789u64, 36).unwrap();
    w.flush().unwrap();
    let bytes = w.into_inner();
    assert_eq!(bytes.len(), 21);

    let mut r = BitReader::new(&bytes[..]);
    assert_eq!(r.read_bits::<u8>(1).unwrap(), 1);
    assert_eq!(r.read_bits::<u128>(128).unwrap(), u128::MAX);
    assert_eq!(r.read_bits::<u64>(36).unwrap(), 0x1_2345_6789);
    assert_eq!(r.read_bits::<u8>(3).unwrap(), 0);
}

#[test]
fn flush_of_aligned_writer_adds_nothing() {
    let mut w = BitWriter::new(vec![7u8]);
    assert!(w.is_aligned());
    w.flush().unwrap();
    w.write_bits(0xABu8, 8).unwrap();
    assert!(w.is_aligned());
    w.align().unwrap();
    assert_eq!(w.into_inner(), vec![7, 0xAB]);
}

#[test]
fn read_full_bytes_aligned_and_short() {
    let data = [1u8, 2, 3];
    let mut r = BitReader::new(&data[..]);
    let mut out = [0u8; 2];
    r.read_full_bytes(&mut out).unwrap();
    assert_eq!(out, [1, 2]);
    let mut more = [0u8; 2];
    assert_eq!(r.read_full_bytes(&mut more).unwrap_err(), CodecError::UnexpectedEof);
    assert!(r.read_bits::<u8>(1).is_err());
}

#[test]
fn usize_bit_fields() {
    let mut w = BitWriter::new(Vec::new());
    w.write_bits(5usize, 3).unwrap();
    w.write_bits(0usize, 5).unwrap();
    let bytes = w.into_inner();
    assert_eq!(bytes, vec![0b1010_0000]);
    let mut r = BitReader::new(&bytes[..]);
    assert_eq!(r.read_bits::<usize>(3).unwrap(), 5);
}
