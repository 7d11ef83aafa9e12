//! The block decompressor: parse the header, then replay the body's tagged
//! chunks into `dst`.  Malformed input of any shape is rejected with a typed
//! error; no input can make the decoder read or write out of bounds.

use vstd::prelude::*;
use crate::binary::uvarint;
use crate::error::{SnappyError, TAG_COPY1, TAG_COPY2, TAG_COPY4, TAG_LITERAL};
use crate::format::{
    back_copy, lemma_back_copy_len, lemma_back_copy_snoc, lit_parse_len, lit_parse_x, run_body,
    spec_decode_len,
};

verus! {

/// Return the declared uncompressed length of the block.
pub fn decode_len(src: &[u8]) -> (r: Result<usize, SnappyError>)
    ensures
        match spec_decode_len(src@) {
            Ok(p) => r == Ok::<usize, SnappyError>(p.0 as usize),
            Err(e) => r == Err::<usize, SnappyError>(e),
        },
{
    let (v, _, err) = _decode_len(src);
    match err {
        SnappyError::NoError => Ok(v),
        _ => Err(err),
    }
}

/// Parse the header varint: the block's uncompressed length and the header
/// size.  On failure both counts are zero and the error says why.
fn _decode_len(src: &[u8]) -> (r: (usize, usize, SnappyError))
    ensures
        match spec_decode_len(src@) {
            Ok(p) => r.2 == SnappyError::NoError && r.0 == p.0 && r.1 == p.1 && r.1
                <= src@.len(),
            Err(e) => r.2 == e,
        },
{
    let (v, n) = uvarint(src);
    proof {
        crate::binary::lemma_uvarint_bounds(src@, 0, 0);
    }
    if n <= 0 || v > 0xffff_ffff {
        return (0, 0, SnappyError::Corrupt);
    }
    proof {
        assert(usize::MAX == 0xffff_ffff || usize::MAX == 0xffff_ffff_ffff_ffff);
    }
    if usize::MAX as u64 == 0xffff_ffff && v > 0x7fff_ffff {
        return (0, 0, SnappyError::DecodeTooLarge);
    }
    (v as usize, n as usize, SnappyError::NoError)
}

/// Decompress the block in `src` into `dst`, returning the number of bytes
/// produced, which is exactly the length the header declares.
pub fn decode(dst: &mut [u8], src: &[u8]) -> (r: Result<usize, SnappyError>)
    ensures
        final(dst)@.len() == old(dst)@.len(),
        match spec_decode_len(src@) {
            Err(e) => r == Err::<usize, SnappyError>(e) && final(dst)@ == old(dst)@,
            Ok(p) => {
                if old(dst)@.len() < p.0 {
                    r == Err::<usize, SnappyError>(SnappyError::DstTooSmall) && final(dst)@
                        == old(dst)@
                } else {
                    final(dst)@.skip(p.0 as int) == old(dst)@.skip(p.0 as int) && match run_body(
                        src@.skip(p.1 as int),
                        Seq::<u8>::empty(),
                        p.0,
                    ) {
                        Ok(out) => r == Ok::<usize, SnappyError>(p.0 as usize)
                            && final(dst)@.take(p.0 as int) == out,
                        Err(e) => r == Err::<usize, SnappyError>(e),
                    }
                }
            },
        },
{
    let (d_len, s, err) = _decode_len(src);
    match err {
        SnappyError::NoError => {}
        _ => {
            return Err(err);
        }
    }
    if d_len > dst.len() {
        return Err(SnappyError::DstTooSmall);
    }
    let err2 = _decode(dst, d_len, src, s);
    proof {
        crate::format::lemma_run_body_err(src@.skip(s as int), Seq::<u8>::empty(), d_len as nat);
    }
    match err2 {
        SnappyError::NoError => Ok(d_len),
        _ => Err(err2),
    }
}

/// Replay the body (the part of `src` from `s0` on) into the first `u` bytes
/// of `dst`, mirroring `run_body` step by step.
fn _decode(dst: &mut [u8], u: usize, src: &[u8], s0: usize) -> (err: SnappyError)
    requires
        u <= old(dst)@.len(),
        s0 <= src@.len(),
    ensures
        final(dst)@.len() == old(dst)@.len(),
        final(dst)@.skip(u as int) == old(dst)@.skip(u as int),
        match run_body(src@.skip(s0 as int), Seq::<u8>::empty(), u as nat) {
            Ok(out) => err == SnappyError::NoError && final(dst)@.take(u as int) == out,
            Err(e) => err == e,
        },
{
    let mut d: usize = 0;
    let mut s: usize = s0;
    proof {
        assert(dst@.take(0) =~= Seq::<u8>::empty());
    }
    while s < src.len()
        invariant
            s0 <= s <= src@.len(),
            d <= u <= dst@.len(),
            dst@.len() == old(dst)@.len(),
            dst@.skip(u as int) =~= old(dst)@.skip(u as int),
            run_body(src@.skip(s0 as int), Seq::<u8>::empty(), u as nat) == run_body(
                src@.skip(s as int),
                dst@.take(d as int),
                u as nat,
            ),
        decreases src@.len() - s,
    {
        let tag = src[s];
        let step = if tag & 0x03 == TAG_LITERAL {
            decode_literal(dst, u, src, s, d)
        } else {
            decode_copy(dst, u, src, s, d)
        };
        match step {
            Ok(p) => {
                d = p.0;
                s = p.1;
            }
            Err(e) => {
                return e;
            }
        }
    }
    proof {
        assert(src@.skip(s as int) =~= Seq::<u8>::empty());
    }
    if d != u {
        return SnappyError::Corrupt;
    }
    SnappyError::NoError
}

/// Decode one literal chunk at `src[s..]`, with `d` bytes already produced.
/// On success returns the new `(produced, read)` cursor pair.
fn decode_literal(dst: &mut [u8], u: usize, src: &[u8], s: usize, d: usize) -> (r: Result<
    (usize, usize),
    SnappyError,
>)
    requires
        d <= u <= old(dst)@.len(),
        s < src@.len(),
        src@[s as int] & 0x03 == 0,
    ensures
        final(dst)@.len() == old(dst)@.len(),
        final(dst)@.skip(u as int) == old(dst)@.skip(u as int),
        match r {
            Ok(p) => d <= p.0 <= u && s < p.1 <= src@.len() && run_body(
                src@.skip(s as int),
                old(dst)@.take(d as int),
                u as nat,
            ) == run_body(src@.skip(p.1 as int), final(dst)@.take(p.0 as int), u as nat),
            Err(e) => run_body(src@.skip(s as int), old(dst)@.take(d as int), u as nat)
                == Err::<Seq<u8>, SnappyError>(e) && final(dst)@ == old(dst)@,
        },
{
    let ghost bb = src@.skip(s as int);
    let ghost out0 = dst@.take(d as int);
    let tag = src[s];
    assert(bb[0] == tag);
    let mut x: u32 = (tag >> 2) as u32;
    let mut cons: usize = 1;
    if x >= 60 {
        if x == 60 {
            cons = 2;
            assert(lit_parse_len(bb) == 2);
            if src.len() - s < 2 {
                return Err(SnappyError::Corrupt);
            }
            assert(bb[1] == src@[s + 1]);
            x = src[s + 1] as u32;
        } else if x == 61 {
            cons = 3;
            assert(lit_parse_len(bb) == 3);
            if src.len() - s < 3 {
                return Err(SnappyError::Corrupt);
            }
            assert(bb[1] == src@[s + 1] && bb[2] == src@[s + 2]);
            x = (src[s + 1] as u32) | ((src[s + 2] as u32) << 8);
        } else if x == 62 {
            cons = 4;
            assert(lit_parse_len(bb) == 4);
            if src.len() - s < 4 {
                return Err(SnappyError::Corrupt);
            }
            assert(bb[1] == src@[s + 1] && bb[2] == src@[s + 2] && bb[3] == src@[s + 3]);
            x = (src[s + 1] as u32) | ((src[s + 2] as u32) << 8) | ((src[s + 3] as u32) << 16);
        } else {
            cons = 5;
            assert(lit_parse_len(bb) == 5);
            if src.len() - s < 5 {
                return Err(SnappyError::Corrupt);
            }
            assert(bb[1] == src@[s + 1] && bb[2] == src@[s + 2] && bb[3] == src@[s + 3] && bb[4]
                == src@[s + 4]);
            x = (src[s + 1] as u32) | ((src[s + 2] as u32) << 8) | ((src[s + 3] as u32) << 16) | (
            (src[s + 4] as u32) << 24);
        }
    }
    assert(cons as int == lit_parse_len(bb));
    assert(x == lit_parse_x(bb));
    proof {
        assert(usize::MAX == 0xffff_ffff || usize::MAX == 0xffff_ffff_ffff_ffff);
    }
    if usize::MAX as u64 == 0xffff_ffff && x == 0xffff_ffff {
        return Err(SnappyError::UnsupportedLiteralLength);
    }
    let length: usize = x as usize + 1;
    if length > u - d || length > src.len() - s - cons {
        return Err(SnappyError::Corrupt);
    }
    let start: usize = s + cons;
    let end_s: usize = start + length;
    assert(out0.len() == d);
    let mut di: usize = d;
    let mut si: usize = start;
    while si < end_s
        invariant
            start <= si <= end_s,
            d <= di <= u,
            di - d == si - start,
            end_s == start + length,
            d + length <= u <= dst@.len(),
            end_s <= src@.len(),
            dst@.len() == old(dst)@.len(),
            dst@.skip(u as int) =~= old(dst)@.skip(u as int),
            out0 == dst@.take(d as int),
            out0 == old(dst)@.take(d as int),
            dst@.take(di as int) =~= out0.add(src@.subrange(start as int, si as int)),
        decreases end_s - si,
    {
        let ghost pre = dst@;
        let v = src[si];
        dst[di] = v;
        proof {
            assert(dst@ == pre.update(di as int, v));
            assert(dst@.take(d as int) =~= pre.take(d as int));
            assert(dst@.skip(u as int) =~= pre.skip(u as int));
            assert(dst@.take(di + 1) =~= pre.take(di as int).push(v));
            assert(out0.add(src@.subrange(start as int, si as int)).push(src@[si as int])
                =~= out0.add(src@.subrange(start as int, si + 1)));
        }
        di += 1;
        si += 1;
    }
    proof {
        assert(bb.skip(cons + length) =~= src@.skip(end_s as int));
        assert(bb.subrange(cons as int, (cons + length) as int) =~= src@.subrange(
            start as int, end_s as int));
        assert(run_body(bb, out0, u as nat) == run_body(
            src@.skip(end_s as int),
            dst@.take(di as int),
            u as nat,
        ));
    }
    Ok((di, end_s))
}

/// Decode one copy chunk at `src[s..]`, with `d` bytes already produced.
/// The referenced bytes are replayed one at a time, so a copy whose offset is
/// shorter than its length replicates the bytes it has just written.
fn decode_copy(dst: &mut [u8], u: usize, src: &[u8], s: usize, d: usize) -> (r: Result<
    (usize, usize),
    SnappyError,
>)
    requires
        d <= u <= old(dst)@.len(),
        s < src@.len(),
        src@[s as int] & 0x03 != 0,
    ensures
        final(dst)@.len() == old(dst)@.len(),
        final(dst)@.skip(u as int) == old(dst)@.skip(u as int),
        match r {
            Ok(p) => d <= p.0 <= u && s < p.1 <= src@.len() && run_body(
                src@.skip(s as int),
                old(dst)@.take(d as int),
                u as nat,
            ) == run_body(src@.skip(p.1 as int), final(dst)@.take(p.0 as int), u as nat),
            Err(e) => run_body(src@.skip(s as int), old(dst)@.take(d as int), u as nat)
                == Err::<Seq<u8>, SnappyError>(e) && final(dst)@ == old(dst)@,
        },
{
    let ghost bb = src@.skip(s as int);
    let ghost out0 = dst@.take(d as int);
    let tag = src[s];
    assert(bb[0] == tag);
    let cons: usize;
    let length: usize;
    let offset: usize;
    if tag & 0x03 == TAG_COPY1 {
        cons = 2;
        if src.len() - s < 2 {
            return Err(SnappyError::Corrupt);
        }
        assert(bb[1] == src@[s + 1]);
        length = 4 + (((tag >> 2) & 0x07) as usize);
        offset = ((((tag as u32) & 0xe0) << 3) | (src[s + 1] as u32)) as usize;
    } else if tag & 0x03 == TAG_COPY2 {
        cons = 3;
        if src.len() - s < 3 {
            return Err(SnappyError::Corrupt);
        }
        assert(bb[1] == src@[s + 1] && bb[2] == src@[s + 2]);
        length = ((tag >> 2) as usize) + 1;
        offset = ((src[s + 1] as u32) | ((src[s + 2] as u32) << 8)) as usize;
    } else {
        proof {
            assert(tag & 0x03 <= 3) by (bit_vector);
            assert(tag & 0x03 == TAG_COPY4);
        }
        cons = 5;
        if src.len() - s < 5 {
            return Err(SnappyError::Corrupt);
        }
        assert(bb[1] == src@[s + 1] && bb[2] == src@[s + 2] && bb[3] == src@[s + 3] && bb[4]
            == src@[s + 4]);
        length = ((tag >> 2) as usize) + 1;
        offset = ((src[s + 1] as u32) | ((src[s + 2] as u32) << 8) | ((src[s + 3] as u32) << 16) | (
        (src[s + 4] as u32) << 24)) as usize;
    }
    if offset == 0 || d < offset || length > u - d {
        return Err(SnappyError::Corrupt);
    }
    assert(out0.len() == d);
    proof {
        lemma_back_copy_len(out0, offset as nat, length as nat);
    }
    let dend: usize = d + length;
    let mut di: usize = d;
    while di < dend
        invariant
            d <= di <= dend,
            dend == d + length,
            1 <= offset <= d,
            dend <= u <= dst@.len(),
            dst@.len() == old(dst)@.len(),
            dst@.skip(u as int) =~= old(dst)@.skip(u as int),
            out0 == dst@.take(d as int),
            out0 == old(dst)@.take(d as int),
            out0.len() == d,
            dst@.take(di as int) =~= back_copy(out0, offset as nat, (di - d) as nat),
        decreases dend - di,
    {
        let ghost pre = dst@;
        proof {
            lemma_back_copy_len(out0, offset as nat, (di - d) as nat);
            lemma_back_copy_snoc(out0, offset as nat, (di - d) as nat);
        }
        let v = dst[di - offset];
        dst[di] = v;
        proof {
            assert(v == back_copy(out0, offset as nat, (di - d) as nat)[di - offset]);
            assert(dst@ == pre.update(di as int, v));
            assert(dst@.take(d as int) =~= pre.take(d as int));
            assert(dst@.skip(u as int) =~= pre.skip(u as int));
            assert(dst@.take(di + 1) =~= pre.take(di as int).push(v));
            assert(dst@.take(di + 1) =~= back_copy(out0, offset as nat, (di + 1 - d) as nat));
        }
        di += 1;
    }
    proof {
        assert(bb.skip(cons as int) =~= src@.skip((s + cons) as int));
        assert(run_body(bb, out0, u as nat) == run_body(
            src@.skip((s + cons) as int),
            dst@.take(di as int),
            u as nat,
        ));
    }
    Ok((di, s + cons))
}

} // verus!
