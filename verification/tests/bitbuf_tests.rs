//! Round-trip and edge-case tests for the bit-packed buffer.

use udp_simple::bitbuf::{BitBuf, BitBufError};

#[test]
fn bool_test() {
    let mut buf = BitBuf::new();
    let testval = true;
    buf.write_bool(testval).unwrap();
    buf.reset_pos();
    assert!(buf.read_bool().unwrap() == testval);
}

#[test]
fn u8_test() {
    let mut buf = BitBuf::new();
    let testval = 211;
    buf.write_u8(testval).unwrap();
    buf.reset_pos();
    assert!(buf.read_u8().unwrap() == testval);
}

#[test]
fn u8_part_test() {
    let mut buf = BitBuf::new();
    let testval = 15;
    buf.write_u8_part(testval, 4).unwrap();
    buf.reset_pos();
    assert!(buf.read_u8_part(4).unwrap() == testval);
}

#[test]
fn i8_part_test() {
    let mut buf = BitBuf::new();
    let testval = -6;
    buf.write_i8_part(testval, 4).unwrap();
    buf.reset_pos();
    assert!(buf.read_i8_part(4).unwrap() == testval);
}

#[test]
fn i8_test() {
    let mut buf = BitBuf::new();
    let testval = -109i8 as u8;
    buf.write_u8(testval).unwrap();
    buf.reset_pos();
    assert!(buf.read_u8().unwrap() == testval);
}

#[test]
fn u16_test() {
    let mut buf = BitBuf::new();
    let testval = 34507;
    buf.write_u16(testval).unwrap();
    buf.reset_pos();
    assert!(buf.read_u16().unwrap() == testval);
}

#[test]
fn u16_part_test() {
    let mut buf = BitBuf::new();
    let testval = 903;
    buf.write_u16_part(testval, 12).unwrap();
    buf.reset_pos();
    assert!(buf.read_u16_part(12).unwrap() == testval);
}

#[test]
fn i16_test() {
    let mut buf = BitBuf::new();
    let testval = -11066;
    buf.write_i16(testval).unwrap();
    buf.reset_pos();
    assert!(buf.read_i16().unwrap() == testval);
}

#[test]
fn i16_part_test() {
    let mut buf = BitBuf::new();
    let testval = -208;
    buf.write_i16_part(testval, 13).unwrap();
    buf.reset_pos();
    let readval = buf.read_i16_part(13).unwrap();
    println!("i16 read val: {} ", readval);
    assert!(readval == testval);
}

#[test]
fn u32_test() {
    let mut buf = BitBuf::new();
    let testval = 193772;
    buf.write_u32(testval).unwrap();
    buf.reset_pos();
    assert!(buf.read_u32().unwrap() == testval);
}

#[test]
fn i32_part_test() {
    let mut buf = BitBuf::new();
    let testval = -98;
    buf.write_i32_part(testval, 12).unwrap();
    buf.reset_pos();
    assert!(buf.read_i32_part(12).unwrap() == testval);
}

#[test]
fn u64_round_trip() {
    let mut buf = BitBuf::new();
    let testval = 0xdeadbeefcafe1234u64;
    buf.write_u64(testval).unwrap();
    buf.reset_pos();
    assert_eq!(buf.read_u64().unwrap(), testval);
}

#[test]
fn i64_part_round_trip() {
    let mut buf = BitBuf::new();
    let testval = -4_000_000_000i64;
    buf.write_i64_part(testval, 40).unwrap();
    buf.reset_pos();
    assert_eq!(buf.read_i64_part(40).unwrap(), testval);
}

#[test]
fn part_truncates_to_low_bits() {
    // Writing 0x1F3 in 5 bits keeps only the low five: 0b10011 = 19.
    let mut buf = BitBuf::new();
    buf.write_u16_part(0x1F3, 5).unwrap();
    buf.reset_pos();
    assert_eq!(buf.read_u16_part(5).unwrap(), 0x13);
}

#[test]
fn unaligned_neighbors_untouched() {
    // Mixed widths at sub-byte offsets: every field reads back exactly,
    // and the total of 3+9+1+16+7 = 36 bits occupies ceil(36/8) = 5 bytes.
    let mut buf = BitBuf::new();
    buf.write_u8_part(0b101, 3).unwrap();
    buf.write_u16_part(0x155, 9).unwrap();
    buf.write_bool(true).unwrap();
    buf.write_u16(0xA5C3).unwrap();
    buf.write_u8_part(0x5E, 7).unwrap();
    assert_eq!(buf.byte_pos(), 5);
    buf.reset_pos();
    assert_eq!(buf.read_u8_part(3).unwrap(), 0b101);
    assert_eq!(buf.read_u16_part(9).unwrap(), 0x155);
    assert_eq!(buf.read_bool().unwrap(), true);
    assert_eq!(buf.read_u16().unwrap(), 0xA5C3);
    assert_eq!(buf.read_u8_part(7).unwrap(), 0x5E);
}

#[test]
fn signed_part_sign_extends() {
    let mut buf = BitBuf::new();
    buf.write_i32_part(-1, 20).unwrap();
    buf.reset_pos();
    assert_eq!(buf.read_i32_part(20).unwrap(), -1);
    let mut buf2 = BitBuf::new();
    buf2.write_i64_part(-77, 9).unwrap();
    buf2.reset_pos();
    assert_eq!(buf2.read_i64_part(9).unwrap(), -77);
}

#[test]
fn overflow_is_reported_not_written() {
    // A 2-byte buffer holds 16 bits; the 17th write fails with Overflow
    // and leaves the cursor where it was.
    let mut buf = BitBuf::with_len(2);
    buf.write_u16(0xFFFF).unwrap();
    assert_eq!(buf.write_bool(true), Err(BitBufError::Overflow));
    assert_eq!(buf.bit_pos(), 16);
    buf.reset_pos();
    assert_eq!(buf.read_u16().unwrap(), 0xFFFF);
    assert_eq!(buf.read_u8(), Err(BitBufError::Overflow));
}

#[test]
fn bytes_round_trip() {
    let mut buf = BitBuf::new();
    let data = vec![1u8, 2, 3, 250, 251, 252];
    buf.write_bytes(&data).unwrap();
    buf.reset_pos();
    assert_eq!(buf.read_bytes(6).unwrap(), data);
}

#[test]
fn to_bytes_and_from_bytes_agree() {
    let mut buf = BitBuf::with_len(8);
    buf.write_u32(0x01020304).unwrap();
    buf.write_u8(0xAB).unwrap();
    let bytes = buf.to_bytes();
    assert_eq!(bytes, vec![0x04, 0x03, 0x02, 0x01, 0xAB]);
    let mut back = BitBuf::from_bytes(&bytes);
    assert_eq!(back.read_u32().unwrap(), 0x01020304);
    assert_eq!(back.read_u8().unwrap(), 0xAB);
}
