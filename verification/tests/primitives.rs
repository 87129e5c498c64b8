use ledecode::decode::Readable;
use ledecode::reader::ByteReader;
use ledecode::reader::DecodeError;

#[test]
fn u8_roundtrip() {
    let mut r = ByteReader::new(vec![0xAB]);
    let v = <u8 as Readable>::read(&mut r).unwrap();
    assert_eq!(v, 0xAB);
    assert_eq!(r.position(), 1);
}

#[test]
fn i8_negative() {
    let mut r = ByteReader::new(vec![0xFF]);
    let v = <i8 as Readable>::read(&mut r).unwrap();
    assert_eq!(v, -1);
    assert_eq!(r.position(), 1);
}

#[test]
fn u16_little_endian() {
    let mut r = ByteReader::new(vec![0x34, 0x12, 0xCC]);
    let v = <u16 as Readable>::read(&mut r).unwrap();
    assert_eq!(v, 0x1234);
    assert_eq!(r.position(), 2);
}

#[test]
fn i16_negative() {
    let mut r = ByteReader::new(vec![0xFE, 0xFF]);
    let v = <i16 as Readable>::read(&mut r).unwrap();
    assert_eq!(v, -2);
    assert_eq!(r.position(), 2);
}

#[test]
fn u32_little_endian() {
    let mut r = ByteReader::new(vec![0x78, 0x56, 0x34, 0x12]);
    let v = <u32 as Readable>::read(&mut r).unwrap();
    assert_eq!(v, 0x12345678);
    assert_eq!(r.position(), 4);
}

#[test]
fn i32_negative() {
    let mut r = ByteReader::new(vec![0xFF, 0xFF, 0xFF, 0xFF]);
    let v = <i32 as Readable>::read(&mut r).unwrap();
    assert_eq!(v, -1);
    assert_eq!(r.position(), 4);
}

#[test]
fn u64_little_endian() {
    let mut r = ByteReader::new(vec![0xEF, 0xCD, 0xAB, 0x89, 0x67, 0x45, 0x23, 0x01]);
    let v = <u64 as Readable>::read(&mut r).unwrap();
    assert_eq!(v, 0x0123456789ABCDEF);
    assert_eq!(r.position(), 8);
}

#[test]
fn i64_negative() {
    let mut r = ByteReader::new(vec![0xFE, 0xFF, 0xFF, 0xFF, 0xFF, 0xFF, 0xFF, 0xFF]);
    let v = <i64 as Readable>::read(&mut r).unwrap();
    assert_eq!(v, -2);
    assert_eq!(r.position(), 8);
}

#[test]
fn u32_short_buffer_fails() {
    let mut r = ByteReader::new(vec![1, 2, 3]);
    let v = <u32 as Readable>::read(&mut r);
    assert_eq!(v, Err(DecodeError::IOFailure));
}

#[test]
fn u16_empty_buffer_fails() {
    let mut r = ByteReader::new(vec![]);
    let v = <u16 as Readable>::read(&mut r);
    assert_eq!(v, Err(DecodeError::IOFailure));
}
