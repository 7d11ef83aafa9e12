//! Concrete wire-format scenarios: fixed inputs with their exact encodings,
//! and malformed blocks with the error each must produce.

use xsnappy::{cmp, decode, decode_len, encode, max_encode_len};
use xsnappy::error::{str_of_error, SnappyError};

fn enc(src: &[u8]) -> (Vec<u8>, usize) {
    let mut dst = vec![0u8; max_encode_len(src.len())];
    let n = encode(&mut dst, src);
    (dst, n)
}

fn dec(block: &[u8]) -> Result<Vec<u8>, SnappyError> {
    let n = decode_len(block)?;
    let mut dst = vec![0u8; n];
    let m = decode(&mut dst, block)?;
    dst.truncate(m);
    Ok(dst)
}

#[test]
fn empty_block() {
    let (dst, n) = enc(b"");
    assert_eq!(n, 1);
    assert_eq!(dst[0], 0x00);
    assert_eq!(dec(&[0x00]).unwrap(), Vec::<u8>::new());
}

#[test]
fn short_literal() {
    let (dst, n) = enc(b"hello");
    assert_eq!(n, 7);
    assert_eq!(&dst[..7], &[0x05, 0x10, 0x68, 0x65, 0x6C, 0x6C, 0x6F]);
    assert_eq!(dec(&dst[..n]).unwrap(), b"hello".to_vec());
}

const MID: &[u8] =
    b"You know some birds are not meant to be caged, their feathers are just too bright.";

#[test]
fn mid_literal() {
    let (dst, n) = enc(MID);
    assert_eq!(MID.len(), 82);
    assert_eq!(n, 83);
    assert_eq!(dst[0], 0x52);
    assert_eq!(dst[n - 1], 0x2E);
    assert_eq!(dec(&dst[..n]).unwrap(), MID.to_vec());
}

#[test]
fn self_overlap_run() {
    let src = vec![0xABu8; 100];
    let (dst, n) = enc(&src);
    // varint 0x64, a one-byte literal, then copies at offset 1 covering the rest
    assert_eq!(dst[0], 0x64);
    assert_eq!(dst[1], 0x00);
    assert_eq!(dst[2], 0xAB);
    assert_eq!(dst[3] & 0x03, 0x02);
    assert_eq!(&dst[4..6], &[0x01, 0x00]);
    let out = dec(&dst[..n]).unwrap();
    assert_eq!(out.len(), 100);
    assert!(out.iter().all(|&b| b == 0xAB));
}

#[test]
fn corrupt_on_truncation() {
    let (dst, n) = enc(MID);
    let cut = &dst[..n - 20];
    let dec_len = decode_len(cut).unwrap_or(0);
    let mut out = vec![0u8; dec_len];
    match decode(&mut out, cut) {
        Err(SnappyError::Corrupt) => {}
        other => panic!("expected corrupt input, got {:?}", other),
    }
}

#[test]
fn header_overflow() {
    // five-byte varint worth more than 32 bits
    let block = [0xFFu8, 0xFF, 0xFF, 0xFF, 0x1F, 0x00, 0x00];
    assert_eq!(decode_len(&block), Err(SnappyError::Corrupt));
    let mut out = vec![0u8; 64];
    assert_eq!(decode(&mut out, &block), Err(SnappyError::Corrupt));
    // exactly u32::MAX parses as a length and then overwhelms a small buffer
    let edge = [0xFFu8, 0xFF, 0xFF, 0xFF, 0x0F, 0x00];
    assert_eq!(decode_len(&edge), Ok(0xFFFF_FFFF));
    assert_eq!(decode(&mut out, &edge), Err(SnappyError::DstTooSmall));
}

#[test]
fn truncated_header() {
    assert_eq!(decode_len(&[]), Err(SnappyError::Corrupt));
    assert_eq!(decode_len(&[0x80]), Err(SnappyError::Corrupt));
    assert_eq!(decode_len(&[0xFF, 0xFF]), Err(SnappyError::Corrupt));
}

#[test]
fn dst_too_small() {
    let (dst, n) = enc(b"hello");
    let mut out = vec![0u8; 4];
    assert_eq!(decode(&mut out, &dst[..n]), Err(SnappyError::DstTooSmall));
}

#[test]
fn corrupt_copy_before_output() {
    // a copy as the very first tag points before the start of the output
    let block = [0x04u8, 0x01, 0x01];
    let mut out = vec![0u8; 4];
    assert_eq!(decode(&mut out, &block), Err(SnappyError::Corrupt));
}

#[test]
fn corrupt_length_mismatch() {
    // header says two bytes but the body yields only one
    let block = [0x02u8, 0x00, 0xAB];
    let mut out = vec![0u8; 2];
    assert_eq!(decode(&mut out, &block), Err(SnappyError::Corrupt));
    // literal longer than the declared length
    let block2 = [0x01u8, 0x08, 0xAA, 0xBB, 0xCC];
    let mut out2 = vec![0u8; 1];
    assert_eq!(decode(&mut out2, &block2), Err(SnappyError::Corrupt));
}

#[test]
fn error_messages() {
    assert_eq!(str_of_error(&SnappyError::Corrupt), "snappy: corrupt input");
    assert_eq!(str_of_error(&SnappyError::DstTooSmall), "snappy: dst len is too small");
    assert_eq!(
        str_of_error(&SnappyError::UnsupportedLiteralLength),
        "snappy: unsupported literal length"
    );
}

#[test]
fn cmp_bytes() {
    assert!(cmp(b"abc", b"abc"));
    assert!(!cmp(b"abc", b"abd"));
    assert!(!cmp(b"abc", b"abcd"));
    assert!(cmp(b"", b""));
}
