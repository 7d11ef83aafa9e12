//! Hand-built blocks covering wire forms the encoder itself never emits:
//! four-byte-offset copies, every literal length header, and short-offset
//! copies that replicate multi-byte patterns.

use xsnappy::decode;
use xsnappy::error::SnappyError;

fn dec_exact(block: &[u8], expect: &[u8]) {
    let mut out = vec![0u8; expect.len()];
    let n = decode(&mut out, block).unwrap();
    assert_eq!(n, expect.len());
    assert_eq!(&out[..n], expect);
}

#[test]
fn copy4_tag_accepted() {
    // literal "abcd", then a Copy4: length 4, offset 4 in four bytes
    let block = [0x08, 0x0C, 0x61, 0x62, 0x63, 0x64, 0x0F, 0x04, 0x00, 0x00, 0x00];
    dec_exact(&block, b"abcdabcd");
}

#[test]
fn copy1_tag() {
    // literal "abcd", then a Copy1: length 4, offset 4 in one byte
    let block = [0x08, 0x0C, 0x61, 0x62, 0x63, 0x64, 0x01, 0x04];
    dec_exact(&block, b"abcdabcd");
}

#[test]
fn copy2_short_offset_expands_pattern() {
    // literal "ab", then a Copy2 of eight bytes at offset two
    let block = [0x0A, 0x04, 0x61, 0x62, 0x1E, 0x02, 0x00];
    dec_exact(&block, b"ababababab");
}

#[test]
fn literal_one_byte_length() {
    // tag 60: the length-minus-one arrives in one extra byte
    let mut block = vec![0x3D, 0xF0, 0x3C];
    let payload: Vec<u8> = (0..61u8).collect();
    block.extend_from_slice(&payload);
    dec_exact(&block, &payload);
}

#[test]
fn literal_two_byte_length() {
    // tag 61: two extra little-endian length bytes
    let payload = vec![0x5Au8; 300];
    let mut block = vec![0xAC, 0x02, 0xF4, 0x2B, 0x01];
    block.extend_from_slice(&payload);
    dec_exact(&block, &payload);
}

#[test]
fn literal_three_byte_length() {
    // tag 62: three extra length bytes
    let payload = vec![0x33u8; 70000];
    let mut block = vec![0xF0, 0xA2, 0x04, 0xF8, 0x6F, 0x11, 0x01];
    block.extend_from_slice(&payload);
    dec_exact(&block, &payload);
}

#[test]
fn literal_four_byte_length() {
    // tag 63: four extra length bytes
    let block = [0x02, 0xFC, 0x01, 0x00, 0x00, 0x00, 0xAA, 0xBB];
    dec_exact(&block, &[0xAA, 0xBB]);
}

#[test]
fn copy_overrunning_declared_length() {
    // the copy would produce more than the header declares
    let block = [0x05, 0x0C, 0x61, 0x62, 0x63, 0x64, 0x09, 0x04];
    let mut out = vec![0u8; 5];
    assert_eq!(decode(&mut out, &block), Err(SnappyError::Corrupt));
}
