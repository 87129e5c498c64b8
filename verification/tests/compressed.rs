use std::io::Read;

use ledecode::reader::ByteReader;
use ledecode::reader::DecodeError;
use ledecode::zlib::get_zlib;

/// A hand-assembled zlib stream holding 100 zero bytes in one stored
/// (uncompressed) deflate block: header 0x78 0x01, block header 0x01 with
/// LEN/NLEN, the raw bytes, and the big-endian Adler-32 checksum.
fn zlib_of_100_zeros() -> Vec<u8> {
    let mut blob = vec![0x78, 0x01, 0x01, 0x64, 0x00, 0x9B, 0xFF];
    blob.extend(std::iter::repeat(0u8).take(100));
    blob.extend([0x00, 0x64, 0x00, 0x01]);
    blob
}

fn framed(uncompressed_len: u32, payload: &[u8]) -> Vec<u8> {
    let mut buf = Vec::new();
    buf.extend(uncompressed_len.to_le_bytes());
    buf.extend((payload.len() as u32).to_le_bytes());
    buf.extend(payload);
    buf
}

#[test]
fn compressed_section_roundtrip() {
    let blob = zlib_of_100_zeros();
    let mut r = ByteReader::new(framed(100, &blob));
    let mut decoder = get_zlib(&mut r).unwrap();
    let mut plain = Vec::new();
    decoder.read_to_end(&mut plain).unwrap();
    assert_eq!(plain, vec![0u8; 100]);
    assert_eq!(r.position(), 8 + blob.len());
}

#[test]
fn get_zlib_is_lazy_and_streams() {
    let blob = zlib_of_100_zeros();
    let mut r = ByteReader::new(framed(100, &blob));
    let mut decoder = get_zlib(&mut r).unwrap();
    // the outer stream already sits past the frame before any decompression
    assert_eq!(r.position(), 8 + blob.len());
    let mut plain = Vec::new();
    let mut chunk = [0u8; 16];
    let n = decoder.read(&mut chunk).unwrap();
    assert!(n > 0);
    plain.extend(&chunk[..n]);
    decoder.read_to_end(&mut plain).unwrap();
    assert_eq!(plain, vec![0u8; 100]);
}

#[test]
fn corrupt_stream_fails_to_decompress() {
    // an invalid zlib header: the decoder is built (buffering is all the
    // frame asks), and reading it reports the corruption
    let mut r = ByteReader::new(framed(100, &[0x01, 0x02, 0x03, 0x04]));
    let mut decoder = get_zlib(&mut r).unwrap();
    let mut plain = Vec::new();
    assert!(decoder.read_to_end(&mut plain).is_err());
}

#[test]
fn short_payload_is_io_failure() {
    // the header declares 10 payload bytes but only 5 follow
    let mut buf = Vec::new();
    buf.extend(100u32.to_le_bytes());
    buf.extend(10u32.to_le_bytes());
    buf.extend([1, 2, 3, 4, 5]);
    let mut r = ByteReader::new(buf);
    assert!(matches!(get_zlib(&mut r), Err(DecodeError::IOFailure)));
}

#[test]
fn short_header_is_io_failure() {
    let mut r = ByteReader::new(vec![100, 0, 0]);
    assert!(matches!(get_zlib(&mut r), Err(DecodeError::IOFailure)));
}
