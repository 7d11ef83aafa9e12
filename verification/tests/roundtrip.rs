//! The codec's headline guarantees exercised on concrete inputs: encode then
//! decode restores the input, the header names the input length, the output
//! stays within `max_encode_len`, and arbitrary bytes never break `decode`.

use xsnappy::error::SnappyError;
use xsnappy::{decode, decode_len, encode, max_encode_len};

fn sample_inputs() -> Vec<Vec<u8>> {
    let mut inputs: Vec<Vec<u8>> = vec![
        b"".to_vec(),
        b"x".to_vec(),
        b"abcdefghijklmnop".to_vec(),
        b"abcdefghijklmnopq".to_vec(),
        b"aaaaaaaaaaaaaaaaaaaaaaaaaaaaaaaaaaaaaaaa".to_vec(),
        vec![0u8; 65536],
        vec![0x55u8; 65537],
    ];
    let mut mixed = Vec::new();
    let mut state: u64 = 88172645463325252;
    for i in 0..200_000usize {
        state ^= state << 13;
        state ^= state >> 7;
        state ^= state << 17;
        if i % 500 < 250 {
            mixed.push((i % 251) as u8);
        } else {
            mixed.push((state >> 32) as u8);
        }
    }
    inputs.push(mixed);
    inputs
}

#[test]
fn round_trip() {
    for src in sample_inputs() {
        let mut dst = vec![0u8; max_encode_len(src.len())];
        let n = encode(&mut dst, &src);
        let block = &dst[..n];
        let u = decode_len(block).unwrap();
        assert_eq!(u, src.len());
        let mut out = vec![0u8; u];
        let m = decode(&mut out, block).unwrap();
        assert_eq!(m, src.len());
        assert_eq!(out, src);
    }
}

#[test]
fn encoded_size_within_bound() {
    for src in sample_inputs() {
        let bound = max_encode_len(src.len());
        assert_eq!(bound, 32 + src.len() + src.len() / 6);
        let mut dst = vec![0u8; bound];
        let n = encode(&mut dst, &src);
        assert!(n <= bound);
    }
}

#[test]
fn max_encode_len_formula() {
    assert_eq!(max_encode_len(0), 32);
    assert_eq!(max_encode_len(1), 33);
    assert_eq!(max_encode_len(6), 39);
    assert_eq!(max_encode_len(65536), 32 + 65536 + 65536 / 6);
    assert_eq!(max_encode_len(0xFFFF_FFFF), 0);
    assert_eq!(max_encode_len(usize::MAX), 0);
}

#[test]
fn arbitrary_bytes_never_break_decode() {
    // feed byte soup to the decoder; every call must return cleanly
    let mut state: u64 = 0x9E37_79B9_7F4A_7C15;
    let mut ok_count = 0usize;
    for round in 0..2000usize {
        let len = round % 37;
        let mut junk = Vec::with_capacity(len);
        for _ in 0..len {
            state = state.wrapping_mul(2862933555777941757).wrapping_add(3037000493);
            junk.push((state >> 48) as u8);
        }
        let mut out = vec![0u8; 128];
        match decode(&mut out, &junk) {
            Ok(n) => {
                assert_eq!(Ok(n), decode_len(&junk));
                ok_count += 1;
            }
            Err(
                SnappyError::Corrupt
                | SnappyError::DstTooSmall
                | SnappyError::DecodeTooLarge
                | SnappyError::UnsupportedLiteralLength,
            ) => {}
            Err(e) => panic!("unexpected error kind {:?}", e),
        }
    }
    // a few tiny inputs do happen to be valid blocks
    let _ = ok_count;
}

#[test]
fn encoder_is_deterministic() {
    for src in sample_inputs() {
        let mut a = vec![0u8; max_encode_len(src.len())];
        let mut b = vec![0u8; max_encode_len(src.len()) + 11];
        b[max_encode_len(src.len())] = 0x7E;
        let na = encode(&mut a, &src);
        let nb = encode(&mut b, &src);
        assert_eq!(na, nb);
        assert_eq!(&a[..na], &b[..nb]);
    }
}

#[test]
fn truncation_always_fails() {
    let src = b"the quick brown fox jumps over the lazy dog, the quick brown fox again";
    let mut dst = vec![0u8; max_encode_len(src.len())];
    let n = encode(&mut dst, src);
    for k in 1..n {
        let cut = &dst[..k];
        let mut out = vec![0u8; src.len()];
        assert!(decode(&mut out, cut).is_err(), "prefix of length {} decoded", k);
    }
}
