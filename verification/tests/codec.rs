use bbl_reader::decoder::{read_fixed32_le, read_fixed8};
use bbl_reader::vlq::{encode_signed_vlq, encode_unsigned_vlq, read_signed_vlq, read_unsigned_vlq};

fn signed_round_trip(v: i32) {
    let bytes = encode_signed_vlq(v);
    let mut cursor = 0usize;
    let out = read_signed_vlq(&bytes, &mut cursor);
    assert_eq!(out, v);
    assert_eq!(cursor, bytes.len());
}

#[test]
fn unsigned_vlq_single_bytes() {
    let data = [0x05u8, 0x0A];
    let mut cursor = 0usize;
    assert_eq!(read_unsigned_vlq(&data, &mut cursor), 5);
    assert_eq!(cursor, 1);
    assert_eq!(read_unsigned_vlq(&data, &mut cursor), 10);
    assert_eq!(cursor, 2);
}

#[test]
fn unsigned_vlq_multi_byte() {
    let data = [0x80u8, 0x01];
    let mut cursor = 0usize;
    assert_eq!(read_unsigned_vlq(&data, &mut cursor), 128);
    assert_eq!(cursor, 2);

    let data2 = [0xFFu8, 0xFF, 0xFF, 0xFF, 0x7F];
    let mut c2 = 0usize;
    assert_eq!(read_unsigned_vlq(&data2, &mut c2), u32::MAX);
    assert_eq!(c2, 5);
}

#[test]
fn unsigned_vlq_at_end_returns_zero_without_consuming() {
    let data = [0x05u8];
    let mut cursor = 1usize;
    assert_eq!(read_unsigned_vlq(&data, &mut cursor), 0);
    assert_eq!(cursor, 1);
}

#[test]
fn unsigned_vlq_unterminated_tail_runs_to_end() {
    let data = [0x80u8, 0x80, 0x80];
    let mut cursor = 0usize;
    assert_eq!(read_unsigned_vlq(&data, &mut cursor), 0);
    assert_eq!(cursor, 3);
}

#[test]
fn signed_vlq_example_byte() {
    // 0x03: continuation clear, raw unsigned 3; sign bit set, magnitude 1.
    let data = [0x03u8];
    let mut cursor = 0usize;
    assert_eq!(read_unsigned_vlq(&data, &mut cursor), 3);
    let mut c2 = 0usize;
    assert_eq!(read_signed_vlq(&data, &mut c2), -1);
    assert_eq!(c2, 1);
}

#[test]
fn signed_vlq_round_trips() {
    for v in [0, 1, -1, 2, -2, 63, -64, 64, 12345, -12345, i32::MAX, -i32::MAX] {
        signed_round_trip(v);
    }
}

#[test]
fn unsigned_vlq_round_trips() {
    for v in [0u32, 1, 127, 128, 300, 16383, 16384, u32::MAX] {
        let bytes = encode_unsigned_vlq(v);
        let mut cursor = 0usize;
        assert_eq!(read_unsigned_vlq(&bytes, &mut cursor), v);
        assert_eq!(cursor, bytes.len());
    }
}

#[test]
fn fixed8_sign_extension() {
    let data = [0xFFu8, 0x7F];
    let mut cursor = 0usize;
    assert_eq!(read_fixed8(&data, &mut cursor, true), -1);
    assert_eq!(read_fixed8(&data, &mut cursor, true), 127);
    assert_eq!(cursor, 2);

    let mut c2 = 0usize;
    assert_eq!(read_fixed8(&data, &mut c2, false), 255);
    assert_eq!(c2, 1);
}

#[test]
fn fixed8_at_end_returns_zero_without_consuming() {
    let data: [u8; 0] = [];
    let mut cursor = 0usize;
    assert_eq!(read_fixed8(&data, &mut cursor, true), 0);
    assert_eq!(cursor, 0);
}

#[test]
fn fixed32_little_endian() {
    let data = [0x01u8, 0x00, 0x00, 0x80];
    let mut cursor = 0usize;
    assert_eq!(read_fixed32_le(&data, &mut cursor), -2147483647);
    assert_eq!(cursor, 4);

    let data2 = [0x78u8, 0x56, 0x34, 0x12];
    let mut c2 = 0usize;
    assert_eq!(read_fixed32_le(&data2, &mut c2), 0x12345678);
}

#[test]
fn fixed32_short_buffer_returns_zero_without_consuming() {
    let data = [0x01u8, 0x02];
    let mut cursor = 0usize;
    assert_eq!(read_fixed32_le(&data, &mut cursor), 0);
    assert_eq!(cursor, 0);
}
