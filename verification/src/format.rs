//! The Snappy block format as a mathematical model.
//!
//! A block is a varint header giving the uncompressed length `u`, followed by
//! a body of tagged chunks.  `run_body` interprets a body the way the decoder
//! must: literals append verbatim bytes, copies replay already-produced bytes
//! with byte-wise forward semantics (so a short offset replicates recently
//! written bytes).  The decoder is proved equal to this model, and the
//! encoder is proved to emit bodies that this model maps back to its input.

use vstd::prelude::*;
use crate::binary::{
    lemma_uvarint_bounds, lemma_uvarint_take, lemma_uvarint_truncate, spec_le32, spec_uvarint,
};
use crate::error::SnappyError;

verus! {

/// The upper bound on the size of an encoded block, `32 + n + n/6`;
/// zero means the input is too large to encode.
pub open spec fn spec_max_encode_len(n: nat) -> nat {
    if n > 0xffff_ffff {
        0
    } else if 32 + n + n / 6 > 0xffff_ffff {
        0
    } else {
        32 + n + n / 6
    }
}

/// Parse the block header: the declared uncompressed length and the header
/// size in bytes.  The length must be a well-formed varint that fits in 32
/// bits, and on a 32-bit host in the signed 32-bit range.
pub open spec fn spec_decode_len(src: Seq<u8>) -> Result<(nat, nat), SnappyError> {
    let vn = spec_uvarint(src);
    if vn.1 <= 0 || vn.0 > 0xffff_ffff {
        Err(SnappyError::Corrupt)
    } else if usize::MAX == 0xffff_ffff && vn.0 > 0x7fff_ffff {
        Err(SnappyError::DecodeTooLarge)
    } else {
        Ok((vn.0 as nat, vn.1 as nat))
    }
}

/// Append `len` bytes to `out`, each read `offset` positions back from the
/// write position.  Freshly appended bytes become source material for later
/// ones, which is how a copy with `offset < len` replicates a short run.
pub open spec fn back_copy(out: Seq<u8>, offset: nat, len: nat) -> Seq<u8>
    recommends
        1 <= offset <= out.len(),
    decreases len,
{
    if len == 0 {
        out
    } else {
        back_copy(out.push(out[out.len() - offset]), offset, (len - 1) as nat)
    }
}

/// How many bytes a literal tag occupies before the literal itself.
pub open spec fn lit_parse_len(b: Seq<u8>) -> int
    recommends
        b.len() >= 1,
{
    let x0 = b[0] >> 2;
    if x0 < 60 {
        1
    } else if x0 == 60 {
        2
    } else if x0 == 61 {
        3
    } else if x0 == 62 {
        4
    } else {
        5
    }
}

/// The length-minus-one carried by a literal tag.
pub open spec fn lit_parse_x(b: Seq<u8>) -> u32
    recommends
        lit_parse_len(b) <= b.len(),
{
    let x0 = b[0] >> 2;
    if x0 < 60 {
        x0 as u32
    } else if x0 == 60 {
        b[1] as u32
    } else if x0 == 61 {
        (b[1] as u32) | ((b[2] as u32) << 8)
    } else if x0 == 62 {
        (b[1] as u32) | ((b[2] as u32) << 8) | ((b[3] as u32) << 16)
    } else {
        spec_le32(b, 1)
    }
}

/// Interpret a block body.  `b` is the unread part of the body, `out` what
/// has been produced so far, `u` the declared uncompressed length.  The
/// interpretation succeeds exactly when the body is consumed with `out`
/// reaching length `u`, every copy pointing strictly backward into produced
/// output, and no chunk overrunning `u` or the body.
pub open spec fn run_body(b: Seq<u8>, out: Seq<u8>, u: nat) -> Result<Seq<u8>, SnappyError>
    decreases b.len(),
{
    if b.len() == 0 {
        if out.len() == u {
            Ok(out)
        } else {
            Err(SnappyError::Corrupt)
        }
    } else {
        let tag = b[0];
        if tag & 0x03 == 0 {
            let c: int = lit_parse_len(b);
            if b.len() < c {
                Err(SnappyError::Corrupt)
            } else if usize::MAX == 0xffff_ffff && lit_parse_x(b) == 0xffff_ffff {
                Err(SnappyError::UnsupportedLiteralLength)
            } else {
                let length: int = lit_parse_x(b) as int + 1;
                if out.len() + length > u || c + length > b.len() {
                    Err(SnappyError::Corrupt)
                } else {
                    run_body(b.skip(c + length), out.add(b.subrange(c, c + length)), u)
                }
            }
        } else {
            let c: int = if tag & 0x03 == 1 {
                2
            } else if tag & 0x03 == 2 {
                3
            } else {
                5
            };
            if b.len() < c {
                Err(SnappyError::Corrupt)
            } else {
                let length: int = if tag & 0x03 == 1 {
                    4 + ((tag >> 2) & 0x07) as int
                } else {
                    (tag >> 2) as int + 1
                };
                let offset: int = if tag & 0x03 == 1 {
                    ((((tag as u32) & 0xe0) << 3) | (b[1] as u32)) as int
                } else if tag & 0x03 == 2 {
                    ((b[1] as u32) | ((b[2] as u32) << 8)) as int
                } else {
                    spec_le32(b, 1) as int
                };
                if offset == 0 || out.len() < offset || out.len() + length > u {
                    Err(SnappyError::Corrupt)
                } else {
                    run_body(b.skip(c), back_copy(out, offset as nat, length as nat), u)
                }
            }
        }
    }
}

/// Decode a whole block: parse the header, then interpret the body.
pub open spec fn spec_decode(src: Seq<u8>) -> Result<Seq<u8>, SnappyError> {
    match spec_decode_len(src) {
        Err(e) => Err(e),
        Ok((u, h)) => run_body(src.skip(h as int), Seq::empty(), u),
    }
}

// ------------------------------------------------------------------
// What the encoder writes, chunk by chunk.
// ------------------------------------------------------------------

/// The header bytes of a literal chunk of `len` bytes.
pub open spec fn lit_hdr(len: nat) -> Seq<u8>
    recommends
        1 <= len <= 65536,
{
    let n: nat = (len - 1) as nat;
    if n < 60 {
        seq![(n as u8) << 2]
    } else if n < 256 {
        seq![0xf0u8, n as u8]
    } else {
        seq![0xf4u8, (n as u16) as u8, ((n as u16) >> 8) as u8]
    }
}

/// A whole literal chunk: header then the bytes themselves.
pub open spec fn lit_chunk(lit: Seq<u8>) -> Seq<u8> {
    lit_hdr(lit.len()).add(lit)
}

/// A two-byte-offset copy tag with inline length `ln` (1..=64).
pub open spec fn copy2_bytes(offset: nat, ln: nat) -> Seq<u8>
    recommends
        1 <= ln <= 64,
        1 <= offset <= 65535,
{
    seq![
        (((ln - 1) as u8) << 2) | 0x02,
        (offset as u16) as u8,
        ((offset as u16) >> 8) as u8,
    ]
}

/// A one-byte-offset copy tag: length 4..=11, offset below 2048.
pub open spec fn copy1_bytes(offset: nat, ln: nat) -> Seq<u8>
    recommends
        4 <= ln <= 11,
        1 <= offset < 2048,
{
    seq![
        ((((offset as u32) >> 8) as u8) << 5) | (((ln - 4) as u8) << 2) | 0x01,
        (offset as u16) as u8,
    ]
}

/// The fixed decomposition of a copy of `length` bytes at `offset` into
/// Copy2/Copy1 tags, as the encoder emits it.
pub open spec fn copy_chunks(offset: nat, length: nat) -> Seq<u8>
    recommends
        4 <= length,
        1 <= offset <= 65535,
    decreases length,
{
    if length >= 68 {
        copy2_bytes(offset, 64).add(copy_chunks(offset, (length - 64) as nat))
    } else if length > 64 {
        copy2_bytes(offset, 60).add(copy_chunks(offset, (length - 60) as nat))
    } else if length >= 12 || offset >= 2048 {
        copy2_bytes(offset, length)
    } else {
        copy1_bytes(offset, length)
    }
}

// ------------------------------------------------------------------
// Facts about back_copy.
// ------------------------------------------------------------------

pub proof fn lemma_back_copy_len(out: Seq<u8>, offset: nat, len: nat)
    ensures
        back_copy(out, offset, len).len() == out.len() + len,
    decreases len,
{
    if len > 0 {
        lemma_back_copy_len(out.push(out[out.len() - offset]), offset, (len - 1) as nat);
    }
}

/// Splitting a back-copy in two gives the same bytes as doing it at once.
pub proof fn lemma_back_copy_add(out: Seq<u8>, offset: nat, a: nat, b: nat)
    ensures
        back_copy(back_copy(out, offset, a), offset, b) == back_copy(out, offset, (a + b) as nat),
    decreases a,
{
    if a > 0 {
        lemma_back_copy_add(out.push(out[out.len() - offset]), offset, (a - 1) as nat, b);
    }
}

/// Extending a back-copy by one appends the byte `offset` positions back.
pub proof fn lemma_back_copy_snoc(out: Seq<u8>, offset: nat, len: nat)
    requires
        1 <= offset <= out.len(),
    ensures
        back_copy(out, offset, len + 1) == back_copy(out, offset, len).push(
            back_copy(out, offset, len)[out.len() + len - offset],
        ),
    decreases len,
{
    lemma_back_copy_len(out, offset, len);
    if len == 0 {
        assert(back_copy(out, offset, 1) == back_copy(out.push(out[out.len() - offset]), offset, 0));
    } else {
        let o2 = out.push(out[out.len() - offset]);
        lemma_back_copy_snoc(o2, offset, (len - 1) as nat);
        assert(back_copy(out, offset, len + 1) == back_copy(o2, offset, len));
        lemma_back_copy_len(o2, offset, (len - 1) as nat);
    }
}

/// When a target sequence `t` extends `out` and repeats itself at distance
/// `offset`, the back-copy reproduces `t` exactly.
pub proof fn lemma_back_copy_matches(out: Seq<u8>, offset: nat, len: nat, t: Seq<u8>)
    requires
        1 <= offset <= out.len(),
        t.len() == out.len() + len,
        t.take(out.len() as int) == out,
        forall|k: int| out.len() <= k < t.len() ==> #[trigger] t[k] == t[k - offset],
    ensures
        back_copy(out, offset, len) == t,
    decreases len,
{
    if len == 0 {
        assert(t =~= out);
    } else {
        let e = out[out.len() - offset];
        assert(t[out.len() - offset] == e);
        assert(t[out.len() as int] == e);
        let o2 = out.push(e);
        assert(o2 =~= t.take(o2.len() as int));
        lemma_back_copy_matches(o2, offset, (len - 1) as nat, t);
    }
}

/// A body interpretation fails only as corruption or an oversized literal.
pub proof fn lemma_run_body_err(b: Seq<u8>, out: Seq<u8>, u: nat)
    ensures
        run_body(b, out, u) is Err ==> run_body(b, out, u) == Err::<Seq<u8>, SnappyError>(
            SnappyError::Corrupt,
        ) || run_body(b, out, u) == Err::<Seq<u8>, SnappyError>(
            SnappyError::UnsupportedLiteralLength,
        ),
    decreases b.len(),
{
    if b.len() == 0 {
    } else {
        let tag = b[0];
        if tag & 0x03 == 0 {
            let c: int = lit_parse_len(b);
            if b.len() < c {
            } else if usize::MAX == 0xffff_ffff && lit_parse_x(b) == 0xffff_ffff {
            } else {
                let length: int = lit_parse_x(b) as int + 1;
                if out.len() + length > u || c + length > b.len() {
                } else {
                    lemma_run_body_err(b.skip(c + length), out.add(b.subrange(c, c + length)), u);
                }
            }
        } else {
            let c: int = if tag & 0x03 == 1 {
                2
            } else if tag & 0x03 == 2 {
                3
            } else {
                5
            };
            if b.len() < c {
            } else {
                let length: int = if tag & 0x03 == 1 {
                    4 + ((tag >> 2) & 0x07) as int
                } else {
                    (tag >> 2) as int + 1
                };
                let offset: int = if tag & 0x03 == 1 {
                    ((((tag as u32) & 0xe0) << 3) | (b[1] as u32)) as int
                } else if tag & 0x03 == 2 {
                    ((b[1] as u32) | ((b[2] as u32) << 8)) as int
                } else {
                    spec_le32(b, 1) as int
                };
                if offset == 0 || out.len() < offset || out.len() + length > u {
                } else {
                    lemma_run_body_err(b.skip(c), back_copy(out, offset as nat, length as nat), u);
                }
            }
        }
    }
}

/// A body interpretation that succeeds produces exactly `u` bytes.
pub proof fn lemma_run_body_ok_len(b: Seq<u8>, out: Seq<u8>, u: nat)
    ensures
        run_body(b, out, u) is Ok ==> run_body(b, out, u)->Ok_0.len() == u,
    decreases b.len(),
{
    if b.len() == 0 {
    } else {
        let tag = b[0];
        if tag & 0x03 == 0 {
            let c: int = lit_parse_len(b);
            if b.len() >= c && !(usize::MAX == 0xffff_ffff && lit_parse_x(b) == 0xffff_ffff) {
                let length: int = lit_parse_x(b) as int + 1;
                if !(out.len() + length > u || c + length > b.len()) {
                    lemma_run_body_ok_len(b.skip(c + length), out.add(b.subrange(c, c + length)),
                        u);
                }
            }
        } else {
            let c: int = if tag & 0x03 == 1 {
                2
            } else if tag & 0x03 == 2 {
                3
            } else {
                5
            };
            if b.len() >= c {
                let length: int = if tag & 0x03 == 1 {
                    4 + ((tag >> 2) & 0x07) as int
                } else {
                    (tag >> 2) as int + 1
                };
                let offset: int = if tag & 0x03 == 1 {
                    ((((tag as u32) & 0xe0) << 3) | (b[1] as u32)) as int
                } else if tag & 0x03 == 2 {
                    ((b[1] as u32) | ((b[2] as u32) << 8)) as int
                } else {
                    spec_le32(b, 1) as int
                };
                if !(offset == 0 || out.len() < offset || out.len() + length > u) {
                    lemma_run_body_ok_len(b.skip(c), back_copy(out, offset as nat, length as nat),
                        u);
                }
            }
        }
    }
}

/// Cutting any amount off a body that interprets successfully leaves one
/// that fails: either a chunk is cut open, or the output falls short of `u`.
pub proof fn lemma_run_body_truncate(b: Seq<u8>, kk: int, out: Seq<u8>, u: nat)
    requires
        run_body(b, out, u) is Ok,
        0 <= kk < b.len(),
    ensures
        run_body(b.take(kk), out, u) is Err,
    decreases b.len(),
{
    let tag = b[0];
    let bt = b.take(kk);
    if kk > 0 {
        assert(bt[0] == tag);
    }
    if tag & 0x03 == 0 {
        let c: int = lit_parse_len(b);
        assert(b.len() >= c);
        assert(!(usize::MAX == 0xffff_ffff && lit_parse_x(b) == 0xffff_ffff));
        let length: int = lit_parse_x(b) as int + 1;
        assert(!(out.len() + length > u || c + length > b.len()));
        if kk == 0 {
            assert(out.len() < u);
            assert(bt =~= Seq::<u8>::empty());
        } else if kk < c {
            assert(lit_parse_len(bt) == c);
        } else if kk < c + length {
            assert(lit_parse_len(bt) == c);
            assert(lit_parse_x(bt) == lit_parse_x(b));
        } else {
            assert(lit_parse_len(bt) == c);
            assert(lit_parse_x(bt) == lit_parse_x(b));
            assert(bt.subrange(c, c + length) =~= b.subrange(c, c + length));
            assert(bt.skip(c + length) =~= b.skip(c + length).take(kk - c - length));
            lemma_run_body_truncate(b.skip(c + length), kk - c - length,
                out.add(b.subrange(c, c + length)), u);
        }
    } else {
        let c: int = if tag & 0x03 == 1 {
            2
        } else if tag & 0x03 == 2 {
            3
        } else {
            5
        };
        assert(b.len() >= c);
        let length: int = if tag & 0x03 == 1 {
            4 + ((tag >> 2) & 0x07) as int
        } else {
            (tag >> 2) as int + 1
        };
        let offset: int = if tag & 0x03 == 1 {
            ((((tag as u32) & 0xe0) << 3) | (b[1] as u32)) as int
        } else if tag & 0x03 == 2 {
            ((b[1] as u32) | ((b[2] as u32) << 8)) as int
        } else {
            spec_le32(b, 1) as int
        };
        assert(!(offset == 0 || out.len() < offset || out.len() + length > u));
        if kk == 0 {
            assert(out.len() < u);
            assert(bt =~= Seq::<u8>::empty());
        } else if kk < c {
        } else {
            assert(bt[1] == b[1] && (c >= 3 ==> bt[2] == b[2]) && (c >= 5 ==> (bt[3] == b[3]
                && bt[4] == b[4])));
            assert(bt.skip(c) =~= b.skip(c).take(kk - c));
            lemma_run_body_truncate(b.skip(c), kk - c, back_copy(out, offset as nat, length as nat),
                u);
        }
    }
}

/// Header determinism: a block that decodes successfully has a well-formed
/// header, and the length that header declares is exactly the length of the
/// decoded output.
pub proof fn lemma_header_names_output_len(block: Seq<u8>)
    requires
        spec_decode(block) is Ok,
    ensures
        spec_decode_len(block) is Ok,
        spec_decode_len(block)->Ok_0.0 == spec_decode(block)->Ok_0.len(),
{
    let p = spec_decode_len(block)->Ok_0;
    lemma_run_body_ok_len(block.skip(p.1 as int), Seq::<u8>::empty(), p.0);
}

/// Truncation law: a block that decodes successfully never has a proper
/// nonempty prefix that also decodes; every such prefix is rejected.
pub proof fn lemma_truncated_block_fails(block: Seq<u8>, k: int)
    requires
        spec_decode(block) is Ok,
        0 < k < block.len(),
    ensures
        spec_decode(block.take(k)) is Err,
{
    let vn = spec_uvarint(block);
    lemma_uvarint_bounds(block, 0, 0);
    let h = vn.1;
    if k < h {
        lemma_uvarint_truncate(block, k, 0, 0, 0);
    } else {
        lemma_uvarint_take(block, k, 0, 0);
        let u = vn.0 as nat;
        let body = block.skip(h);
        assert(block.take(k).skip(h) =~= body.take(k - h));
        lemma_run_body_truncate(body, k - h, Seq::<u8>::empty(), u);
    }
}

// ------------------------------------------------------------------
// How run_body consumes the chunks the encoder writes.
// ------------------------------------------------------------------

/// Interpreting a literal chunk appends the literal bytes.
pub proof fn lemma_step_literal(lit: Seq<u8>, rest: Seq<u8>, out: Seq<u8>, u: nat)
    requires
        1 <= lit.len() <= 65536,
        out.len() + lit.len() <= u,
    ensures
        run_body(lit_chunk(lit).add(rest), out, u) == run_body(rest, out.add(lit), u),
{
    let n: nat = (lit.len() - 1) as nat;
    let b = lit_chunk(lit).add(rest);
    let h: int = lit_hdr(lit.len()).len() as int;
    assert(b.len() == h + lit.len() + rest.len());
    if n < 60 {
        let n8: u8 = n as u8;
        assert(b[0] == (n8 << 2));
        assert((n8 << 2) & 0x03 == 0 && (n8 << 2) >> 2 == n8 && n8 < 60) by (bit_vector)
            requires n8 < 60;
        assert(lit_parse_len(b) == 1);
        assert(lit_parse_x(b) == n8 as u32);
    } else if n < 256 {
        let n8: u8 = n as u8;
        assert(b[0] == 0xf0 && b[1] == n8);
        assert(0xf0u8 & 0x03 == 0 && 0xf0u8 >> 2 == 60) by (bit_vector);
        assert(lit_parse_len(b) == 2);
        assert(lit_parse_x(b) == n8 as u32);
        assert(n8 as u32 == n);
    } else {
        let n16: u16 = n as u16;
        assert(b[0] == 0xf4 && b[1] == n16 as u8 && b[2] == (n16 >> 8) as u8);
        assert(0xf4u8 & 0x03 == 0 && 0xf4u8 >> 2 == 61) by (bit_vector);
        assert(lit_parse_len(b) == 3);
        assert(((n16 as u8) as u32) | ((((n16 >> 8) as u8) as u32) << 8) == n16 as u32)
            by (bit_vector);
        assert(lit_parse_x(b) == n16 as u32);
    }
    let c: int = lit_parse_len(b);
    assert(lit_parse_x(b) as int == n);
    assert(lit_parse_x(b) != 0xffff_ffffu32);
    let length: int = n as int + 1;
    assert(length == lit.len());
    assert(c + length <= b.len());
    assert(out.len() + length <= u);
    assert(b.skip(c + length) =~= rest);
    assert(b.subrange(c, c + length) =~= lit);
}

/// Interpreting one Copy2 tag performs the back-copy it names.
pub proof fn lemma_step_copy2(offset: nat, ln: nat, rest: Seq<u8>, out: Seq<u8>, u: nat)
    requires
        1 <= ln <= 64,
        1 <= offset <= 65535,
        offset <= out.len(),
        out.len() + ln <= u,
    ensures
        run_body(copy2_bytes(offset, ln).add(rest), out, u) == run_body(
            rest,
            back_copy(out, offset, ln),
            u,
        ),
{
    let b = copy2_bytes(offset, ln).add(rest);
    let l8: u8 = (ln - 1) as u8;
    let o16: u16 = offset as u16;
    assert(b[0] == (l8 << 2) | 0x02 && b[1] == o16 as u8 && b[2] == (o16 >> 8) as u8);
    assert(((l8 << 2) | 0x02) & 0x03 == 2 && ((l8 << 2) | 0x02) >> 2 == l8) by (bit_vector)
        requires l8 < 64;
    assert(((o16 as u8) as u32) | ((((o16 >> 8) as u8) as u32) << 8) == o16 as u32)
        by (bit_vector);
    assert(b.skip(3) =~= rest);
}

/// Interpreting one Copy1 tag performs the back-copy it names.
pub proof fn lemma_step_copy1(offset: nat, ln: nat, rest: Seq<u8>, out: Seq<u8>, u: nat)
    requires
        4 <= ln <= 11,
        1 <= offset < 2048,
        offset <= out.len(),
        out.len() + ln <= u,
    ensures
        run_body(copy1_bytes(offset, ln).add(rest), out, u) == run_body(
            rest,
            back_copy(out, offset, ln),
            u,
        ),
{
    let b = copy1_bytes(offset, ln).add(rest);
    let o32: u32 = offset as u32;
    let hi: u8 = (o32 >> 8) as u8;
    let lo: u8 = offset as u16 as u8;
    let l8: u8 = (ln - 4) as u8;
    let tag: u8 = (hi << 5) | (l8 << 2) | 0x01;
    assert(b[0] == tag && b[1] == lo);
    assert(hi < 8) by (bit_vector)
        requires hi == (o32 >> 8) as u8 && o32 < 2048;
    assert(tag & 0x03 == 1 && 4 + ((tag >> 2) & 0x07) == 4 + l8) by (bit_vector)
        requires tag == (hi << 5) | (l8 << 2) | 0x01 && hi < 8 && l8 < 8;
    assert((((tag as u32) & 0xe0) << 3) | (lo as u32) == o32) by (bit_vector)
        requires tag == (hi << 5) | (l8 << 2) | 0x01 && hi == (o32 >> 8) as u8
            && lo == (o32 as u16) as u8 && o32 < 2048 && l8 < 8;
    assert(b.skip(2) =~= rest);
}

/// The byte cost of a copy decomposition: at least two, at most `length - 1`.
pub proof fn lemma_copy_chunks_len(offset: nat, length: nat)
    requires
        4 <= length,
    ensures
        2 <= copy_chunks(offset, length).len() <= length - 1,
    decreases length,
{
    if length >= 68 {
        lemma_copy_chunks_len(offset, (length - 64) as nat);
    } else if length > 64 {
        lemma_copy_chunks_len(offset, (length - 60) as nat);
    }
}

/// Per output byte a copy earns a margin over the bound `7/6`: six times
/// its cost stays ten below seven times its length.
pub proof fn lemma_copy_chunks_cost(offset: nat, length: nat)
    requires
        4 <= length,
    ensures
        6 * copy_chunks(offset, length).len() <= 7 * length - 10,
    decreases length,
{
    if length >= 68 {
        lemma_copy_chunks_cost(offset, (length - 64) as nat);
    } else if length > 64 {
        lemma_copy_chunks_cost(offset, (length - 60) as nat);
    }
}

/// Interpreting a whole copy decomposition performs the full back-copy.
pub proof fn lemma_run_copy_chunks(offset: nat, length: nat, rest: Seq<u8>, out: Seq<u8>, u: nat)
    requires
        4 <= length,
        1 <= offset <= 65535,
        offset <= out.len(),
        out.len() + length <= u,
    ensures
        run_body(copy_chunks(offset, length).add(rest), out, u) == run_body(
            rest,
            back_copy(out, offset, length),
            u,
        ),
    decreases length,
{
    lemma_back_copy_len(out, offset, length);
    if length >= 68 {
        let tail = copy_chunks(offset, (length - 64) as nat);
        assert(copy_chunks(offset, length).add(rest) =~= copy2_bytes(offset, 64).add(
            tail.add(rest)));
        lemma_step_copy2(offset, 64, tail.add(rest), out, u);
        lemma_back_copy_len(out, offset, 64);
        lemma_run_copy_chunks(offset, (length - 64) as nat, rest, back_copy(out, offset, 64), u);
        lemma_back_copy_add(out, offset, 64, (length - 64) as nat);
    } else if length > 64 {
        let tail = copy_chunks(offset, (length - 60) as nat);
        assert(copy_chunks(offset, length).add(rest) =~= copy2_bytes(offset, 60).add(
            tail.add(rest)));
        lemma_step_copy2(offset, 60, tail.add(rest), out, u);
        lemma_back_copy_len(out, offset, 60);
        lemma_run_copy_chunks(offset, (length - 60) as nat, rest, back_copy(out, offset, 60), u);
        lemma_back_copy_add(out, offset, 60, (length - 60) as nat);
    } else if length >= 12 || offset >= 2048 {
        lemma_step_copy2(offset, length, rest, out, u);
    } else {
        lemma_step_copy1(offset, length, rest, out, u);
    }
}

} // verus!
