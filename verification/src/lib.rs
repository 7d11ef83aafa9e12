//! Snappy block-format compression: a byte-oriented LZ77-style codec with a
//! fixed wire format.  `encode` turns a byte sequence into a self-delimiting
//! compressed block; `decode` reconstructs the original bytes exactly and
//! rejects malformed blocks with a typed error.

use vstd::prelude::*;

pub mod binary;
pub mod decode;
pub mod encode;
pub mod error;
pub mod format;

use crate::error::SnappyError;

verus! {

/// Compress `src` into the front of `dst`, which must offer
/// `max_encode_len(src.len())` bytes of room; returns the block length.
/// The block is exactly `spec_encode(src)` — the encoder is deterministic —
/// and decodes back to `src`.
pub fn encode(dst: &mut [u8], src: &[u8]) -> (n: usize)
    requires
        format::spec_max_encode_len(src@.len() as nat) != 0,
        old(dst)@.len() >= format::spec_max_encode_len(src@.len() as nat),
        usize::MAX == 0xffff_ffff ==> src@.len() <= 0x7fff_ffff,
    ensures
        n <= format::spec_max_encode_len(src@.len() as nat),
        final(dst)@.len() == old(dst)@.len(),
        final(dst)@.skip(n as int) == old(dst)@.skip(n as int),
        final(dst)@.take(n as int) == encode::spec_encode(src@),
        n == encode::spec_encode(src@).len(),
        format::spec_decode_len(final(dst)@.take(n as int)) == Ok::<(nat, nat), SnappyError>(
            (src@.len() as nat, binary::varint_len(src@.len() as u64)),
        ),
        format::spec_decode(final(dst)@.take(n as int)) == Ok::<Seq<u8>, SnappyError>(src@),
{
    encode::encode(dst, src)
}

/// Decompress the block in `src` into the front of `dst`; returns how many
/// bytes were produced, or a typed error on malformed input or a `dst` that
/// is too short.
pub fn decode(dst: &mut [u8], src: &[u8]) -> (r: Result<usize, SnappyError>)
    ensures
        final(dst)@.len() == old(dst)@.len(),
        match format::spec_decode_len(src@) {
            Err(e) => r == Err::<usize, SnappyError>(e) && final(dst)@ == old(dst)@,
            Ok(p) => {
                if old(dst)@.len() < p.0 {
                    r == Err::<usize, SnappyError>(SnappyError::DstTooSmall) && final(dst)@
                        == old(dst)@
                } else {
                    final(dst)@.skip(p.0 as int) == old(dst)@.skip(p.0 as int) && match
                        format::run_body(src@.skip(p.1 as int), Seq::<u8>::empty(), p.0) {
                        Ok(out) => r == Ok::<usize, SnappyError>(p.0 as usize)
                            && final(dst)@.take(p.0 as int) == out,
                        Err(e) => r == Err::<usize, SnappyError>(e),
                    }
                }
            },
        },
{
    decode::decode(dst, src)
}

/// The worst-case encoded size for an input of `src_len` bytes; zero means
/// the input is too large to encode.
pub fn max_encode_len(src_len: usize) -> (r: usize)
    ensures
        r == format::spec_max_encode_len(src_len as nat),
{
    encode::max_encode_len(src_len)
}

/// The uncompressed length a block's header declares.
pub fn decode_len(src: &[u8]) -> (r: Result<usize, SnappyError>)
    ensures
        match format::spec_decode_len(src@) {
            Ok(p) => r == Ok::<usize, SnappyError>(p.0 as usize),
            Err(e) => r == Err::<usize, SnappyError>(e),
        },
{
    decode::decode_len(src)
}

/// Compare two byte slices for equality, byte by byte.
pub fn cmp(dst: &[u8], src: &[u8]) -> (r: bool)
    ensures
        r <==> dst@ == src@,
{
    if dst.len() != src.len() {
        proof {
            assert(dst@.len() != src@.len());
        }
        return false;
    }
    let mut i: usize = 0;
    while i < dst.len()
        invariant
            i <= dst@.len(),
            dst@.len() == src@.len(),
            forall|j: int| 0 <= j < i ==> dst@[j] == src@[j],
        decreases dst@.len() - i,
    {
        if dst[i] != src[i] {
            return false;
        }
        i += 1;
    }
    proof {
        assert(dst@ =~= src@);
    }
    true
}

} // verus!
