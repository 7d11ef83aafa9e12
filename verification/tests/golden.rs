//! Interoperability with an independent Snappy implementation: blocks we
//! produce must decompress there, and blocks it produces must decode here.

use xsnappy::{decode, decode_len, encode, max_encode_len};

fn our_encode(src: &[u8]) -> Vec<u8> {
    let mut dst = vec![0u8; max_encode_len(src.len())];
    let n = encode(&mut dst, src);
    dst.truncate(n);
    dst
}

fn our_decode(block: &[u8]) -> Vec<u8> {
    let n = decode_len(block).unwrap();
    let mut dst = vec![0u8; n];
    let m = decode(&mut dst, block).unwrap();
    dst.truncate(m);
    dst
}

fn sample_inputs() -> Vec<Vec<u8>> {
    let mut inputs: Vec<Vec<u8>> = vec![
        b"".to_vec(),
        b"a".to_vec(),
        b"hello world! hello world! hello world! hello world!".to_vec(),
        vec![0xAB; 100],
        vec![0x00; 70000],
    ];
    // deterministic pseudo-random bytes, some repetition, some noise
    let mut state: u64 = 0x2545_F491_4F6C_DD1D;
    let mut noisy = Vec::new();
    for i in 0..50_000usize {
        state = state.wrapping_mul(6364136223846793005).wrapping_add(1442695040888963407);
        if i % 1000 < 300 {
            noisy.push(b'x');
        } else {
            noisy.push((state >> 56) as u8);
        }
    }
    inputs.push(noisy);
    let mut structured = Vec::new();
    for i in 0..30_000u32 {
        structured.extend_from_slice(&(i / 16).to_le_bytes());
    }
    inputs.push(structured);
    inputs
}

#[test]
fn their_blocks_decode_here() {
    for src in sample_inputs() {
        let block = snap::raw::Encoder::new().compress_vec(&src).unwrap();
        assert_eq!(our_decode(&block), src);
    }
}

#[test]
fn our_blocks_decode_there() {
    for src in sample_inputs() {
        let block = our_encode(&src);
        let back = snap::raw::Decoder::new().decompress_vec(&block).unwrap();
        assert_eq!(back, src);
    }
}

#[test]
fn length_headers_agree() {
    for src in sample_inputs() {
        let theirs = snap::raw::Encoder::new().compress_vec(&src).unwrap();
        let ours = our_encode(&src);
        assert_eq!(decode_len(&theirs).unwrap(), src.len());
        assert_eq!(decode_len(&ours).unwrap(), src.len());
        assert_eq!(snap::raw::decompress_len(&ours).unwrap(), src.len());
    }
}
