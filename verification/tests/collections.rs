use ledecode::composite::Vertex;
use ledecode::decode::read_list;
use ledecode::decode::read_list_2d;
use ledecode::decode::read_vec;
use ledecode::decode::skip;
use ledecode::reader::ByteReader;
use ledecode::reader::DecodeError;
use ledecode::records::read_meshes;

#[test]
fn read_vec_two_u16() {
    let mut r = ByteReader::new(vec![0x0A, 0x00, 0x0B, 0x00]);
    let v = read_vec::<u16>(&mut r, 2).unwrap();
    assert_eq!(v, vec![10, 11]);
    assert_eq!(r.position(), 4);
}

#[test]
fn list_u16_empty() {
    let mut r = ByteReader::new(vec![0x00, 0x00]);
    let v = read_list::<u16, u16>(&mut r).unwrap();
    assert_eq!(v, Vec::<u16>::new());
    assert_eq!(r.position(), 2);
}

#[test]
fn list_u16_two_elements() {
    let mut r = ByteReader::new(vec![0x02, 0x00, 0x0A, 0x00, 0x0B, 0x00]);
    let v = read_list::<u16, u16>(&mut r).unwrap();
    assert_eq!(v, vec![10, 11]);
    assert_eq!(r.position(), 6);
}

#[test]
fn list_u32_width() {
    let mut r = ByteReader::new(vec![0x01, 0x00, 0x00, 0x00, 0x2A, 0x00]);
    let v = read_list::<u16, u32>(&mut r).unwrap();
    assert_eq!(v, vec![42]);
    assert_eq!(r.position(), 6);
}

#[test]
fn list_truncated_third_element_fails_whole() {
    // count = 3, but the third u32's encoding is cut short
    let mut r = ByteReader::new(vec![
        0x03, 0x00, // count
        1, 0, 0, 0, // element 0
        2, 0, 0, 0, // element 1
        3, 0, // element 2, truncated
    ]);
    let v = read_list::<u32, u16>(&mut r);
    assert_eq!(v, Err(DecodeError::IOFailure));
}

#[test]
fn grid_two_by_three_row_major() {
    let mut r = ByteReader::new(vec![
        0x02, 0x00, // outer count
        0x03, 0x00, // inner count
        1, 2, 3, 4, 5, 6,
    ]);
    let v = read_list_2d::<u8>(&mut r).unwrap();
    assert_eq!(v.len(), 2);
    assert_eq!(v[0], vec![1, 2, 3]);
    assert_eq!(v[1], vec![4, 5, 6]);
    assert_eq!(r.position(), 10);
}

#[test]
fn grid_zero_rows() {
    let mut r = ByteReader::new(vec![0x00, 0x00, 0x05, 0x00]);
    let v = read_list_2d::<u8>(&mut r).unwrap();
    assert_eq!(v, Vec::<Vec<u8>>::new());
    assert_eq!(r.position(), 4);
}

#[test]
fn fixed_array_three_u16() {
    let mut r = ByteReader::new(vec![0x0A, 0x00, 0x0B, 0x00, 0x0C, 0x00]);
    let v = <[u16; 3] as ledecode::decode::Readable>::read(&mut r).unwrap();
    assert_eq!(v, [10, 11, 12]);
    assert_eq!(r.position(), 6);
}

#[test]
fn fixed_array_short_buffer_fails() {
    let mut r = ByteReader::new(vec![0x0A, 0x00, 0x0B, 0x00]);
    let v = <[u16; 3] as ledecode::decode::Readable>::read(&mut r);
    assert_eq!(v, Err(DecodeError::IOFailure));
}

#[test]
fn fixed_array_zero_length() {
    let mut r = ByteReader::new(vec![0xAA, 0xBB]);
    let v = <[u16; 0] as ledecode::decode::Readable>::read(&mut r).unwrap();
    assert_eq!(v, []);
    assert_eq!(r.position(), 0);
}

#[test]
fn boxed_array_three_u16() {
    let mut r = ByteReader::new(vec![0x0A, 0x00, 0x0B, 0x00, 0x0C, 0x00]);
    let v = <Box<[u16; 3]> as ledecode::decode::Readable>::read(&mut r).unwrap();
    assert_eq!(*v, [10, 11, 12]);
    assert_eq!(r.position(), 6);
}

#[test]
fn vertex_fields_in_declaration_order() {
    let mut r = ByteReader::new(vec![1, 0, 2, 0, 3, 0]);
    let v = <Vertex as ledecode::decode::Readable>::read(&mut r).unwrap();
    assert_eq!(v, Vertex { x: 1, y: 2, z: 3 });
    assert_eq!(r.position(), 6);
}

#[test]
fn meshes_one_padded_record() {
    // half-length 4: the region holds 8 bytes, one 6-byte vertex plus
    // 2 bytes of alignment padding
    let mut r = ByteReader::new(vec![
        0x04, 0x00, 0x00, 0x00, // half-length
        1, 0, 2, 0, 3, 0, // vertex
        0xCC, 0xCC, // padding to the 4-byte boundary
    ]);
    let v = read_meshes::<Vertex>(&mut r).unwrap();
    assert_eq!(v, vec![Vertex { x: 1, y: 2, z: 3 }]);
    assert_eq!(r.position(), 12);
}

#[test]
fn meshes_two_padded_records() {
    let mut r = ByteReader::new(vec![
        0x08, 0x00, 0x00, 0x00, // half-length: a 16-byte region
        1, 0, 2, 0, 3, 0, 0xCC, 0xCC, // vertex, padded
        4, 0, 5, 0, 6, 0, 0xCC, 0xCC, // vertex, padded
    ]);
    let v = read_meshes::<Vertex>(&mut r).unwrap();
    assert_eq!(v, vec![Vertex { x: 1, y: 2, z: 3 }, Vertex { x: 4, y: 5, z: 6 }]);
    assert_eq!(r.position(), 20);
}

#[test]
fn meshes_empty_region() {
    let mut r = ByteReader::new(vec![0x00, 0x00, 0x00, 0x00]);
    let v = read_meshes::<Vertex>(&mut r).unwrap();
    assert_eq!(v, Vec::<Vertex>::new());
    assert_eq!(r.position(), 4);
}

#[test]
fn meshes_record_overruns_region_fails() {
    // half-length 2: a 4-byte region, too short for any 6-byte vertex
    let mut r = ByteReader::new(vec![0x02, 0x00, 0x00, 0x00, 1, 0, 2, 0]);
    let v = read_meshes::<Vertex>(&mut r);
    assert_eq!(v, Err(DecodeError::IOFailure));
}

#[test]
fn meshes_region_shorter_than_declared_fails() {
    // half-length 4 declares 8 bytes, but only 6 follow
    let mut r = ByteReader::new(vec![0x04, 0x00, 0x00, 0x00, 1, 0, 2, 0, 3, 0]);
    let v = read_meshes::<Vertex>(&mut r);
    assert_eq!(v, Err(DecodeError::IOFailure));
}

#[test]
fn skip_exact_buffer() {
    let mut r = ByteReader::new(vec![1, 2, 3, 4, 5]);
    let v = skip::<5>(&mut r);
    assert_eq!(v, Ok(()));
    assert_eq!(r.position(), 5);
    assert_eq!(r.remaining_len(), 0);
}

#[test]
fn skip_short_buffer_fails() {
    let mut r = ByteReader::new(vec![1, 2, 3]);
    let v = skip::<5>(&mut r);
    assert_eq!(v, Err(DecodeError::IOFailure));
    assert_eq!(r.remaining_len(), 0);
}

#[test]
fn skip_then_read() {
    let mut r = ByteReader::new(vec![0xAA, 0xBB, 0x34, 0x12]);
    skip::<2>(&mut r).unwrap();
    let v = <u16 as ledecode::decode::Readable>::read(&mut r).unwrap();
    assert_eq!(v, 0x1234);
}
