use vdf_parser::error::VdfError;
use vdf_parser::reader::{Reader, SeekMode};
use vdf_parser::writer::Writer;

#[test]
fn reader_reads_both_byte_orders() {
    let data = [0x01u8, 0x02, 0x03, 0x04, 0x05, 0x06, 0x07, 0x08];
    let mut r = Reader::new(&data);
    assert_eq!(r.read_uint32(true), Ok(0x0403_0201));
    assert_eq!(r.read_uint32(false), Ok(0x0506_0708));
    assert_eq!(r.get_offset(), 8);
    assert_eq!(r.remaining(), 0);
    assert_eq!(r.read_uint8(true), Err(VdfError::TruncatedInput));
    assert_eq!(r.get_offset(), 8);
    let mut r = Reader::new(&data);
    assert_eq!(r.read_uint64(true), Ok(0x0807_0605_0403_0201));
    let mut r = Reader::new(&data);
    assert_eq!(r.read_uint16(false), Ok(0x0102));
    assert_eq!(r.read_uint8(true), Ok(3));
    assert_eq!(r.read_char(true), Ok('\u{4}'));
}

#[test]
fn reader_reads_signed_values() {
    let data = [0xFFu8, 0xFE, 0xFF, 0xFF, 0xFF, 0x80];
    let mut r = Reader::new(&data);
    assert_eq!(r.read_int8(true), Ok(-1));
    assert_eq!(r.read_int32(true), Ok(-2));
    let mut r = Reader::new(&data);
    assert_eq!(r.read_int16(false), Ok(-2));
    let bytes = (-5i64).to_le_bytes();
    let mut r = Reader::new(&bytes);
    assert_eq!(r.read_int64(true), Ok(-5));
    let big = [0x7Fu8, 0xFF];
    let mut r = Reader::new(&big);
    assert_eq!(r.read_int16(false), Ok(i16::MAX));
}

#[test]
fn reader_reads_strings() {
    let data = b"abc\0de\0xyz";
    let mut r = Reader::new(data);
    assert_eq!(r.read_string(None), Ok("abc".to_string()));
    assert_eq!(r.get_offset(), 4);
    assert_eq!(r.read_string(Some(2)), Ok("de".to_string()));
    assert_eq!(r.get_offset(), 6);
    assert_eq!(r.read_string(None), Ok(String::new()));
    assert_eq!(r.read_string(None), Err(VdfError::TruncatedInput));
    assert_eq!(r.get_offset(), 7);
    assert_eq!(r.read_string(Some(4)), Err(VdfError::TruncatedInput));
    assert_eq!(r.read_string(Some(3)), Ok("xyz".to_string()));
}

#[test]
fn reader_seeks_and_slices() {
    let data = [1u8, 2, 3, 4, 5, 6];
    let mut r = Reader::new(&data);
    assert_eq!(r.seek(2, SeekMode::Absolute), Ok(()));
    assert_eq!(r.seek(1, SeekMode::Forward), Ok(()));
    assert_eq!(r.get_offset(), 3);
    assert_eq!(r.seek(4, SeekMode::Forward), Err(VdfError::TruncatedInput));
    assert_eq!(r.get_offset(), 3);
    assert_eq!(r.seek(1, SeekMode::FromEnd), Ok(()));
    assert_eq!(r.read_uint8(true), Ok(6));
    assert_eq!(r.seek(7, SeekMode::Absolute), Err(VdfError::TruncatedInput));
    let mut s = r.slice(1, 3).ok().unwrap();
    assert_eq!(s.get_length(), 3);
    assert_eq!(s.get_data(), &[2u8, 3, 4]);
    assert_eq!(s.read_uint16(true), Ok(0x0302));
    assert_eq!(s.read_uint16(true), Err(VdfError::TruncatedInput));
    assert!(r.slice(4, 3).is_err());
}

#[test]
fn writer_writes_both_byte_orders() {
    let mut w = Writer::new(vec![0u8; 4]);
    assert_eq!(w.write_uint16(0x0102, true), 2);
    assert_eq!(w.write_uint16(0x0102, false), 2);
    assert_eq!(w.write_uint32(0xA1B2C3D4, true), 4);
    assert_eq!(w.write_uint64(1, false), 8);
    assert_eq!(w.write_uint8(0xEE, true), 1);
    w.trim();
    assert_eq!(
        w.get_data(),
        &[0x02, 0x01, 0x01, 0x02, 0xD4, 0xC3, 0xB2, 0xA1, 0, 0, 0, 0, 0, 0, 0, 1, 0xEE]
    );
}

#[test]
fn writer_writes_signed_values() {
    let mut w = Writer::new(Vec::new());
    w.write_int8(-1, true);
    w.write_int16(-2, false);
    w.write_int32(-3, true);
    w.write_int64(i64::MIN, true);
    w.trim();
    let mut expected = vec![0xFFu8, 0xFF, 0xFE, 0xFD, 0xFF, 0xFF, 0xFF];
    expected.extend_from_slice(&i64::MIN.to_le_bytes());
    assert_eq!(w.into_data(), expected);
}

#[test]
fn writer_writes_strings() {
    let mut w = Writer::new(vec![0u8; 1]);
    assert_eq!(w.write_string("ab".to_string(), true, false, true), 6);
    assert_eq!(w.write_string("é".to_string(), false, true, true), 2);
    assert_eq!(w.write_string("z".to_string(), false, false, true), 1);
    assert_eq!(w.get_offset(), 10);
    assert!(w.remaining() > 0 || w.get_data().len() == 10);
    w.trim();
    assert_eq!(w.into_data(), vec![2, 0, 0, 0, b'a', b'b', 0xC3, 0xA9, 0, b'z']);
}

#[test]
fn writer_seeks_and_overwrites() {
    let mut w = Writer::new(vec![0u8; 8]);
    w.write_uint32(0x11111111, true);
    assert_eq!(w.seek(0, SeekMode::Absolute), Ok(()));
    w.write_uint8(0x22, true);
    assert_eq!(w.seek(9, SeekMode::Absolute), Err(VdfError::TruncatedInput));
    assert_eq!(w.seek(2, SeekMode::FromEnd), Ok(()));
    assert_eq!(w.get_offset(), 6);
    w.trim();
    assert_eq!(w.into_data(), vec![0x22, 0x11, 0x11, 0x11, 0, 0]);
}

#[test]
fn written_values_read_back() {
    let mut w = Writer::new(vec![0u8; 2]);
    w.write_uint32(123, true);
    w.write_int16(-300, false);
    w.write_string("key".to_string(), false, true, true);
    w.trim();
    let data = w.into_data();
    let mut r = Reader::new(&data);
    assert_eq!(r.read_uint32(true), Ok(123));
    assert_eq!(r.read_int16(false), Ok(-300));
    assert_eq!(r.read_string(None), Ok("key".to_string()));
}

#[test]
fn write_string_count_leaves_out_the_nul() {
    let mut w = Writer::new(Vec::new());
    assert_eq!(w.write_string("abc".to_string(), false, true, true), 3);
    assert_eq!(w.get_offset(), 4);
    assert_eq!(w.write_string("abc".to_string(), true, true, false), 7);
    assert_eq!(w.get_offset(), 12);
    w.trim();
    assert_eq!(w.into_data(), vec![b'a', b'b', b'c', 0, 0, 0, 0, 3, b'a', b'b', b'c', 0]);
}

#[test]
fn writer_buffer_doubles_when_full() {
    let mut w = Writer::new(vec![7u8, 7, 7]);
    w.write_uint16(1, true);
    assert_eq!(w.get_data(), &[1u8, 0, 7]);
    w.write_uint16(2, true);
    assert_eq!(w.get_data(), &[1u8, 0, 2, 0, 0, 0]);
    let mut w = Writer::new(vec![0u8; 4]);
    w.write_uint64(0, true);
    assert_eq!(w.get_data().len(), 8);
    w.write_uint8(9, true);
    assert_eq!(w.get_data().len(), 16);
    assert_eq!(w.remaining(), 7);
}

#[test]
fn writer_grows_from_empty() {
    let mut w = Writer::new(Vec::new());
    w.write_uint8(1, true);
    assert_eq!(w.get_data().len(), 1);
    w.write_uint8(2, true);
    assert_eq!(w.get_data().len(), 2);
    w.write_uint8(3, true);
    assert_eq!(w.get_data(), &[1u8, 2, 3, 0]);
}

#[test]
fn writer_writes_raw_bytes() {
    let mut w = Writer::new(Vec::new());
    assert_eq!(w.write_bytes(&[1, 2, 3]), 3);
    assert_eq!(w.get_offset(), 3);
    w.trim();
    assert_eq!(w.into_data(), vec![1, 2, 3]);
}

#[test]
fn reader_reads_raw_c_strings() {
    let data = [0xFFu8, 0x41, 0, 0x42];
    let mut r = Reader::new(&data);
    assert_eq!(r.read_cstring_bytes(), Ok(vec![0xFF, 0x41]));
    assert_eq!(r.get_offset(), 3);
    assert_eq!(r.read_cstring_bytes(), Err(VdfError::TruncatedInput));
    assert_eq!(r.get_offset(), 3);
}
