use pupsy_render::decode::decode_int;

#[test]
fn decode_one_byte() {
    let buffer = vec![0x2a, 0xff, 0x00];
    assert_eq!(decode_int(&buffer, 0, 1), 42);
    assert_eq!(decode_int(&buffer, 1, 1), 255);
    assert_eq!(decode_int(&buffer, 2, 1), 0);
}

#[test]
fn decode_two_bytes_little_endian() {
    let buffer = vec![0x34, 0x12, 0xff, 0xff];
    assert_eq!(decode_int(&buffer, 0, 2), 0x1234);
    assert_eq!(decode_int(&buffer, 2, 2), 0xffff);
}

#[test]
fn decode_four_bytes_little_endian() {
    let buffer = vec![0x78, 0x56, 0x34, 0x12];
    assert_eq!(decode_int(&buffer, 0, 4), 0x12345678);
    let buffer = vec![0xff, 0xff, 0xff, 0xff];
    assert_eq!(decode_int(&buffer, 0, 4), u32::MAX);
}

#[test]
fn decode_with_offset() {
    let buffer = vec![0x00, 0x00, 0x01, 0x02, 0x03, 0x04];
    assert_eq!(decode_int(&buffer, 2, 4), 0x04030201);
}

#[test]
fn unsupported_sizes_decode_to_zero() {
    let buffer = vec![0xaa; 16];
    assert_eq!(decode_int(&buffer, 0, 3), 0);
    assert_eq!(decode_int(&buffer, 0, 8), 0);
    assert_eq!(decode_int(&buffer, 0, 0), 0);
}
