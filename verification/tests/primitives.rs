//! The byte primitives on their own: varint writing and parsing with its
//! three outcome classes, and the little-endian loads.

use xsnappy::binary::{load32, load64, put_uvarint, uvarint};

#[test]
fn varint_small() {
    let mut buf = [0u8; 10];
    let n = put_uvarint(&mut buf, 0);
    assert_eq!(n, 1);
    assert_eq!(buf[0], 0x00);
    let n = put_uvarint(&mut buf, 1);
    assert_eq!(n, 1);
    assert_eq!(buf[0], 0x01);
    let n = put_uvarint(&mut buf, 127);
    assert_eq!(n, 1);
    assert_eq!(buf[0], 0x7F);
}

#[test]
fn varint_multi_byte() {
    let mut buf = [0u8; 10];
    let n = put_uvarint(&mut buf, 300);
    assert_eq!(n, 2);
    assert_eq!(&buf[..2], &[0xAC, 0x02]);
    let n = put_uvarint(&mut buf, 0xFFFF_FFFF);
    assert_eq!(n, 5);
    assert_eq!(&buf[..5], &[0xFF, 0xFF, 0xFF, 0xFF, 0x0F]);
}

#[test]
fn varint_round_trip() {
    let cases: [u64; 9] = [0, 1, 127, 128, 300, 16383, 16384, 0xFFFF_FFFF, u64::MAX];
    for &x in cases.iter() {
        let mut buf = [0u8; 10];
        let n = put_uvarint(&mut buf, x);
        let (v, m) = uvarint(&buf[..n]);
        assert_eq!(v, x);
        assert_eq!(m as usize, n);
    }
}

#[test]
fn varint_exhausted() {
    assert_eq!(uvarint(&[]), (0, 0));
    assert_eq!(uvarint(&[0x80]), (0, 0));
    assert_eq!(uvarint(&[0xFF, 0xFF]), (0, 0));
}

#[test]
fn varint_overflow() {
    // ten continuation bytes and an eleventh byte: overflow at index ten
    let buf = [0x80u8; 11];
    assert_eq!(uvarint(&buf), (0, -11));
    // tenth byte terminates but carries more than one data bit
    let buf2 = [0xFF, 0xFF, 0xFF, 0xFF, 0xFF, 0xFF, 0xFF, 0xFF, 0xFF, 0x02];
    assert_eq!(uvarint(&buf2), (0, -10));
}

#[test]
fn loads() {
    let b = [0x01u8, 0x02, 0x03, 0x04, 0x05, 0x06, 0x07, 0x08, 0x09];
    assert_eq!(load32(&b, 0), 0x04030201);
    assert_eq!(load32(&b, 1), 0x05040302);
    assert_eq!(load64(&b, 0), 0x0807060504030201);
    assert_eq!(load64(&b, 1), 0x0908070605040302);
}
