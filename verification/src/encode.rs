//! The block compressor: a hash-table-driven single-pass match finder that
//! emits literal and copy tags.  Its output is proved to be a well-formed
//! block that decodes back to the input, never longer than `max_encode_len`.

use vstd::prelude::*;
use vstd::slice::slice_subrange;
use crate::binary::{
    lemma_le32_eq_bytes, lemma_parse_varint_bytes, lemma_varint_fits_u32, load32, put_uvarint,
    spec_le32, varint_bytes, varint_len,
};
use crate::error::SnappyError;
use crate::format::{
    copy_chunks, copy1_bytes, copy2_bytes, lemma_back_copy_matches, lemma_copy_chunks_cost,
    lemma_copy_chunks_len, lemma_run_copy_chunks, lemma_step_literal, lit_chunk, lit_hdr,
    run_body, spec_decode, spec_decode_len, spec_max_encode_len,
};

verus! {

// ------------------------------------------------------------------
// The encoder's one fixed strategy, as a mathematical function.  Identical
// input yields identical output, so the functions below pin the emitted
// bytes exactly; the executable encoder is proved equal to them.
// ------------------------------------------------------------------

/// The hash table at the start of a block: every slot empty.
pub open spec fn zero_table(n: nat) -> Seq<u16> {
    Seq::new(n, |i: int| 0u16)
}

/// The table size for a segment: the smallest power of two in
/// [256, 16384] reaching the segment length.
pub open spec fn spec_table_size(len: nat) -> nat {
    if len <= 256 {
        256
    } else if len <= 512 {
        512
    } else if len <= 1024 {
        1024
    } else if len <= 2048 {
        2048
    } else if len <= 4096 {
        4096
    } else if len <= 8192 {
        8192
    } else {
        16384
    }
}

/// The hash shift paired with `spec_table_size`: 32 minus its exponent.
pub open spec fn spec_shift(len: nat) -> u32 {
    if len <= 256 {
        24
    } else if len <= 512 {
        23
    } else if len <= 1024 {
        22
    } else if len <= 2048 {
        21
    } else if len <= 4096 {
        20
    } else if len <= 8192 {
        19
    } else {
        18
    }
}

/// The table fingerprint: a fixed multiplicative hash of a 32-bit group,
/// truncated to 32 bits and shifted down to the table's index range.
pub open spec fn spec_hash(u: u32, shift: u32) -> u32 {
    (((u as u64) * 0x1e35a7bd) as u32) >> shift
}

/// How many bytes beyond the first four a match extends: positions `i` and
/// `s` advance together while the bytes there agree.
pub open spec fn ext_len(seg: Seq<u8>, i: int, s: int) -> nat
    decreases seg.len() - s,
{
    if s < seg.len() && seg[i] == seg[s] {
        (1 + ext_len(seg, i + 1, s + 1)) as nat
    } else {
        0
    }
}

/// The search phase: probe positions `s0 + j`, `j` growing by `(32 + j)/32`
/// each step, until a four-byte group equals the group at its table slot's
/// candidate.  Yields whether a match was found before the probe passed
/// `len - 15`, the updated table, the offset `j` of the match, the candidate
/// position, and the hash of the next probe's group.
pub open spec fn spec_search(
    seg: Seq<u8>,
    table: Seq<u16>,
    shift: u32,
    s0: int,
    j: nat,
    next_hash: u32,
) -> (bool, Seq<u16>, nat, int, u32)
    decreases seg.len() - s0 - j,
{
    let s = s0 + j;
    let bb: nat = (32 + j) / 32;
    let next_s2 = s + bb;
    let s_limit = seg.len() - 15;
    if next_s2 > s_limit {
        (false, table, j, 0int, next_hash)
    } else {
        let candidate = table[next_hash as int] as int;
        let table2 = table.update(next_hash as int, s as u16);
        let next_hash2 = spec_hash(spec_le32(seg, next_s2), shift);
        if spec_le32(seg, s) == spec_le32(seg, candidate) {
            (true, table2, j, candidate, next_hash2)
        } else {
            spec_search(seg, table2, shift, s0, j + bb, next_hash2)
        }
    }
}

/// The trailing literal: whatever the emissions have not covered yet.
pub open spec fn spec_remainder(seg: Seq<u8>, next_emit: int) -> Seq<u8> {
    if next_emit < seg.len() {
        lit_chunk(seg.subrange(next_emit, seg.len() as int))
    } else {
        Seq::<u8>::empty()
    }
}

/// The chain phase: extend the match at `(candidate, s)`, emit its copy,
/// then either finish with the trailing literal, continue with a fresh
/// candidate found by the double hash, or fall back to the search phase.
pub open spec fn spec_match(seg: Seq<u8>, table: Seq<u16>, shift: u32, s: int, candidate: int) -> Seq<
    u8,
>
    decreases seg.len() - s,
{
    let base = s;
    let s2 = base + 4 + ext_len(seg, candidate + 4, base + 4);
    let chunk = copy_chunks((base - candidate) as nat, (s2 - base) as nat);
    let s_limit = seg.len() - 15;
    if s2 >= s_limit {
        chunk.add(spec_remainder(seg, s2))
    } else {
        let prev_hash = spec_hash(spec_le32(seg, s2 - 1), shift);
        let table1 = table.update(prev_hash as int, (s2 - 1) as u16);
        let curr_hash = spec_hash(spec_le32(seg, s2), shift);
        let candidate2 = table1[curr_hash as int] as int;
        let table2 = table1.update(curr_hash as int, s2 as u16);
        if spec_le32(seg, s2) != spec_le32(seg, candidate2) {
            let next_hash2 = spec_hash(spec_le32(seg, s2 + 1), shift);
            chunk.add(spec_block_loop(seg, table2, shift, s2, next_hash2))
        } else {
            chunk.add(spec_match(seg, table2, shift, s2, candidate2))
        }
    }
}

/// One round of the block encoder from a covered prefix of `next_emit`
/// bytes: search from `next_emit + 1`; on a match emit the pending literal
/// and enter the chain phase, otherwise emit the trailing literal.
pub open spec fn spec_block_loop(
    seg: Seq<u8>,
    table: Seq<u16>,
    shift: u32,
    next_emit: int,
    next_hash: u32,
) -> Seq<u8>
    decreases seg.len() - next_emit,
{
    let sr = spec_search(seg, table, shift, next_emit + 1, 0, next_hash);
    let s_found = next_emit + 1 + sr.2;
    if !sr.0 || s_found >= seg.len() - 15 {
        spec_remainder(seg, next_emit)
    } else {
        lit_chunk(seg.subrange(next_emit, s_found)).add(
            spec_match(seg, sr.1, shift, s_found, sr.3),
        )
    }
}

/// The body emitted for one segment of 17 to 65536 bytes.
pub open spec fn spec_encode_block(seg: Seq<u8>) -> Seq<u8> {
    let sh = spec_shift(seg.len());
    spec_block_loop(
        seg,
        zero_table(spec_table_size(seg.len())),
        sh,
        0int,
        spec_hash(spec_le32(seg, 1), sh),
    )
}

/// The body emitted for the input from position `q` on: segments of at most
/// 64 KiB through the block encoder, a final short tail as one literal.
pub open spec fn spec_encode_rest(src: Seq<u8>, q: int) -> Seq<u8>
    decreases src.len() - q,
{
    if q >= src.len() {
        Seq::<u8>::empty()
    } else if src.len() - q < 17 {
        lit_chunk(src.skip(q))
    } else if src.len() - q > 65536 {
        spec_encode_block(src.subrange(q, q + 65536)).add(spec_encode_rest(src, q + 65536))
    } else {
        spec_encode_block(src.subrange(q, src.len() as int))
    }
}

/// The whole block the encoder emits for `src`: the varint header naming
/// `src.len()`, then the body.  The encoder is a function of its input
/// alone, so two calls on equal inputs emit equal blocks.
pub open spec fn spec_encode(src: Seq<u8>) -> Seq<u8> {
    varint_bytes(src.len() as u64).add(spec_encode_rest(src, 0))
}

/// The largest number of bytes `encode` may write for an input of
/// `src_len` bytes; zero when the input is too large to encode.
pub fn max_encode_len(src_len: usize) -> (r: usize)
    ensures
        r == spec_max_encode_len(src_len as nat),
{
    if src_len as u64 > 0xffff_ffff {
        return 0;
    }
    let m: u64 = 32 + src_len as u64 + src_len as u64 / 6;
    if m > 0xffff_ffff {
        return 0;
    }
    proof {
        assert(usize::MAX == 0xffff_ffff || usize::MAX == 0xffff_ffff_ffff_ffff);
    }
    m as usize
}

/// The table fingerprint of a four-byte group: a fixed multiplicative hash
/// truncated to 32 bits and cut down to the table's index range.
fn hash(u: u32, shift: u32) -> (r: u32)
    requires
        1 <= shift <= 31,
    ensures
        r == spec_hash(u, shift),
        (r as u64) < (1u64 << ((32 - shift) as u64)),
{
    let m: u64 = (u as u64) * 0x1e35a7bd;
    let t: u32 = #[verifier::truncate] (m as u32);
    let r = t >> shift;
    proof {
        assert(((t >> shift) as u64) < (1u64 << ((32 - shift) as u64))) by (bit_vector)
            requires 1 <= shift <= 31;
    }
    r
}

/// Write `lit` as one literal chunk at `dst[d..]`; returns the chunk size.
fn emit_literal(dst: &mut [u8], d: usize, lit: &[u8]) -> (n: usize)
    requires
        1 <= lit@.len() <= 65536,
        d + lit@.len() + 3 <= old(dst)@.len(),
    ensures
        n == lit_chunk(lit@).len(),
        lit@.len() < n <= lit@.len() + 3,
        lit@.len() <= 60 ==> n == lit@.len() + 1,
        61 <= lit@.len() <= 256 ==> n == lit@.len() + 2,
        lit@.len() > 256 ==> n == lit@.len() + 3,
        final(dst)@.len() == old(dst)@.len(),
        final(dst)@.subrange(0, d as int) == old(dst)@.subrange(0, d as int),
        final(dst)@.subrange(d as int, (d + n) as int) == lit_chunk(lit@),
        final(dst)@.skip((d + n) as int) == old(dst)@.skip((d + n) as int),
{
    let dlen: usize = dst.len();
    let len: usize = lit.len();
    let nn: usize = len - 1;
    let i: usize;
    if nn < 60 {
        dst[d] = (nn as u8) << 2;
        i = 1;
    } else if nn < 256 {
        dst[d] = 0xf0;
        dst[d + 1] = nn as u8;
        i = 2;
    } else {
        let n16: u16 = nn as u16;
        dst[d] = 0xf4;
        dst[d + 1] = n16 as u8;
        dst[d + 2] = (n16 >> 8) as u8;
        i = 3;
    }
    assert(dst@.subrange(d as int, (d + i) as int) =~= lit_hdr(lit@.len()));
    assert(forall|k: int|
        0 <= k < dst@.len() && !(d <= k < d + i) ==> #[trigger] dst@[k] == old(dst)@[k]);
    let ghost mid = dst@;
    let w0: usize = d + i;
    let mut j: usize = 0;
    while j < len
        invariant
            j <= len,
            len == lit@.len(),
            w0 + len <= dlen,
            dlen == dst@.len(),
            dst@.len() == old(dst)@.len(),
            forall|k: int|
                0 <= k < dst@.len() && !(w0 <= k < w0 + j) ==> #[trigger] dst@[k] == mid[k],
            dst@.subrange(w0 as int, (w0 + j) as int) =~= lit@.take(j as int),
        decreases len - j,
    {
        let ghost pre = dst@;
        let v = lit[j];
        dst[w0 + j] = v;
        proof {
            assert(dst@ == pre.update((w0 + j) as int, v));
            assert(dst@.subrange(w0 as int, (w0 + j + 1) as int) =~= lit@.take(j + 1));
        }
        j += 1;
    }
    proof {
        assert(lit@.take(len as int) =~= lit@);
        assert(dst@.subrange(d as int, (d + i) as int) =~= lit_hdr(lit@.len()));
        assert(dst@.subrange(d as int, (d + i + len) as int) =~= dst@.subrange(
            d as int, (d + i) as int).add(dst@.subrange((d + i) as int, (d + i + len) as int)));
        assert(dst@.subrange(d as int, (d + i + len) as int) =~= lit_chunk(lit@));
        assert(dst@.subrange(0, d as int) =~= old(dst)@.subrange(0, d as int));
        assert(dst@.skip((d + i + len) as int) =~= old(dst)@.skip((d + i + len) as int));
    }
    i + len
}

/// Write the copy decomposition for `(offset, length)` at `dst[d..]`;
/// returns the number of tag bytes written.
#[verifier::rlimit(100)]
fn emit_copy(dst: &mut [u8], d: usize, offset: usize, length: usize) -> (n: usize)
    requires
        4 <= length <= 65536,
        1 <= offset <= 65535,
        d + copy_chunks(offset as nat, length as nat).len() <= old(dst)@.len(),
    ensures
        n == copy_chunks(offset as nat, length as nat).len(),
        2 <= n && n <= length - 1,
        6 * n <= 7 * length - 10,
        final(dst)@.len() == old(dst)@.len(),
        final(dst)@.subrange(0, d as int) == old(dst)@.subrange(0, d as int),
        final(dst)@.subrange(d as int, (d + n) as int) == copy_chunks(offset as nat, length as nat),
        final(dst)@.skip((d + n) as int) == old(dst)@.skip((d + n) as int),
{
    proof {
        lemma_copy_chunks_len(offset as nat, length as nat);
        lemma_copy_chunks_cost(offset as nat, length as nat);
    }
    let dlen: usize = dst.len();
    let o16: u16 = offset as u16;
    let lo: u8 = o16 as u8;
    let hi: u8 = (o16 >> 8) as u8;
    let mut i: usize = 0;
    let mut rem: usize = length;
    while rem >= 68
        invariant
            4 <= rem <= length <= 65536,
            1 <= offset <= 65535,
            o16 == offset as u16,
            lo == o16 as u8,
            hi == (o16 >> 8) as u8,
            copy_chunks(offset as nat, length as nat) =~= dst@.subrange(d as int, (d + i) as int)
                .add(copy_chunks(offset as nat, rem as nat)),
            d + i + copy_chunks(offset as nat, rem as nat).len() <= dlen,
            dlen == dst@.len(),
            i + copy_chunks(offset as nat, rem as nat).len() == copy_chunks(
                offset as nat, length as nat).len(),
            dst@.len() == old(dst)@.len(),
            dst@.subrange(0, d as int) =~= old(dst)@.subrange(0, d as int),
            dst@.skip((d + copy_chunks(offset as nat, length as nat).len()) as int)
                =~= old(dst)@.skip((d + copy_chunks(offset as nat, length as nat).len()) as int),
        decreases rem,
    {
        proof {
            lemma_copy_chunks_len(offset as nat, (rem - 64) as nat);
        }
        let ghost pre = dst@;
        dst[d + i] = 0xfe;
        dst[d + i + 1] = lo;
        dst[d + i + 2] = hi;
        proof {
            assert(((63u8) << 2) | 0x02 == 0xfeu8) by (bit_vector);
            assert(copy2_bytes(offset as nat, 64) =~= seq![0xfeu8, lo, hi]);
            assert(dst@.subrange((d + i) as int, (d + i + 3) as int) =~= seq![0xfeu8, lo, hi]);
            assert(dst@.subrange(d as int, (d + i) as int) =~= pre.subrange(d as int, (d + i) as int));
            assert(dst@.subrange(0, d as int) =~= pre.subrange(0, d as int));
            assert(copy_chunks(offset as nat, rem as nat) == copy2_bytes(offset as nat, 64).add(
                copy_chunks(offset as nat, (rem - 64) as nat)));
            assert(dst@.subrange(d as int, (d + i + 3) as int) =~= dst@.subrange(
                d as int, (d + i) as int).add(dst@.subrange((d + i) as int, (d + i + 3) as int)));
            assert(copy_chunks(offset as nat, length as nat) =~= dst@.subrange(
                d as int, (d + i + 3) as int).add(copy_chunks(offset as nat, (rem - 64) as nat)));
            assert(dst@.skip((d + copy_chunks(offset as nat, length as nat).len()) as int)
                =~= pre.skip((d + copy_chunks(offset as nat, length as nat).len()) as int));
        }
        i += 3;
        rem -= 64;
    }
    if rem > 64 {
        proof {
            lemma_copy_chunks_len(offset as nat, (rem - 60) as nat);
        }
        let ghost pre = dst@;
        dst[d + i] = 0xee;
        dst[d + i + 1] = lo;
        dst[d + i + 2] = hi;
        proof {
            assert(((59u8) << 2) | 0x02 == 0xeeu8) by (bit_vector);
            assert(copy2_bytes(offset as nat, 60) =~= seq![0xeeu8, lo, hi]);
            assert(dst@.subrange((d + i) as int, (d + i + 3) as int) =~= seq![0xeeu8, lo, hi]);
            assert(dst@.subrange(d as int, (d + i) as int) =~= pre.subrange(d as int, (d + i) as int));
            assert(dst@.subrange(0, d as int) =~= pre.subrange(0, d as int));
            assert(copy_chunks(offset as nat, rem as nat) == copy2_bytes(offset as nat, 60).add(
                copy_chunks(offset as nat, (rem - 60) as nat)));
            assert(dst@.subrange(d as int, (d + i + 3) as int) =~= dst@.subrange(
                d as int, (d + i) as int).add(dst@.subrange((d + i) as int, (d + i + 3) as int)));
            assert(copy_chunks(offset as nat, length as nat) =~= dst@.subrange(
                d as int, (d + i + 3) as int).add(copy_chunks(offset as nat, (rem - 60) as nat)));
            assert(dst@.skip((d + copy_chunks(offset as nat, length as nat).len()) as int)
                =~= pre.skip((d + copy_chunks(offset as nat, length as nat).len()) as int));
        }
        i += 3;
        rem -= 60;
    }
    if rem >= 12 || offset >= 2048 {
        let ghost pre = dst@;
        dst[d + i] = (((rem - 1) as u8) << 2) | 0x02;
        dst[d + i + 1] = lo;
        dst[d + i + 2] = hi;
        proof {
            assert(copy_chunks(offset as nat, rem as nat) == copy2_bytes(offset as nat, rem as nat));
            assert(dst@.subrange((d + i) as int, (d + i + 3) as int) =~= copy2_bytes(
                offset as nat, rem as nat));
            assert(dst@.subrange(d as int, (d + i) as int) =~= pre.subrange(d as int, (d + i) as int));
            assert(dst@.subrange(0, d as int) =~= pre.subrange(0, d as int));
            assert(dst@.subrange(d as int, (d + i + 3) as int) =~= dst@.subrange(
                d as int, (d + i) as int).add(dst@.subrange((d + i) as int, (d + i + 3) as int)));
            assert(copy_chunks(offset as nat, length as nat) =~= dst@.subrange(
                d as int, (d + i + 3) as int));
            assert(dst@.skip((d + i + 3) as int) =~= pre.skip((d + i + 3) as int));
        }
        return i + 3;
    }
    let ghost pre = dst@;
    let o32: u32 = offset as u32;
    dst[d + i] = (((o32 >> 8) as u8) << 5) | (((rem - 4) as u8) << 2) | 0x01;
    dst[d + i + 1] = lo;
    proof {
        assert(copy_chunks(offset as nat, rem as nat) == copy1_bytes(offset as nat, rem as nat));
        assert((o16 as u8) == ((offset as u16) as u8));
        assert(dst@.subrange((d + i) as int, (d + i + 2) as int) =~= copy1_bytes(
            offset as nat, rem as nat));
        assert(dst@.subrange(d as int, (d + i) as int) =~= pre.subrange(d as int, (d + i) as int));
        assert(dst@.subrange(0, d as int) =~= pre.subrange(0, d as int));
        assert(dst@.subrange(d as int, (d + i + 2) as int) =~= dst@.subrange(
            d as int, (d + i) as int).add(dst@.subrange((d + i) as int, (d + i + 2) as int)));
        assert(copy_chunks(offset as nat, length as nat) =~= dst@.subrange(
            d as int, (d + i + 2) as int));
        assert(dst@.skip((d + i + 2) as int) =~= pre.skip((d + i + 2) as int));
    }
    i + 2
}

/// Emit whatever part of the segment is not yet covered (from `next_emit`
/// on) as one trailing literal; returns the new write position.  The bytes
/// between `d0` and `d` must already interpret as the covered prefix, and
/// afterwards the bytes between `d0` and the result interpret as the whole
/// segment.
fn emit_remainder(dst: &mut [u8], d0: usize, d: usize, seg: &[u8], next_emit: usize) -> (nd: usize)
    requires
        next_emit <= seg@.len(),
        1 <= seg@.len() <= 65536,
        d0 <= d,
        d + (seg@.len() - next_emit) + 3 <= old(dst)@.len(),
        forall|rest: Seq<u8>, out: Seq<u8>, u: nat|
            out.len() + seg@.len() <= u ==> #[trigger] run_body(
                old(dst)@.subrange(d0 as int, d as int).add(rest),
                out,
                u,
            ) == run_body(rest, out.add(seg@.take(next_emit as int)), u),
    ensures
        d <= nd,
        nd + 3 <= old(dst)@.len() + 3,
        next_emit == seg@.len() ==> nd == d,
        next_emit < seg@.len() ==> {
            let lr = seg@.len() - next_emit;
            (lr <= 60 ==> nd == d + lr + 1) && (61 <= lr <= 256 ==> nd == d + lr + 2) && (lr > 256
                ==> nd == d + lr + 3)
        },
        final(dst)@.len() == old(dst)@.len(),
        final(dst)@.subrange(0, d as int) == old(dst)@.subrange(0, d as int),
        final(dst)@.subrange(d as int, nd as int) == spec_remainder(seg@, next_emit as int),
        final(dst)@.skip(nd as int) == old(dst)@.skip(nd as int),
        forall|rest: Seq<u8>, out: Seq<u8>, u: nat|
            out.len() + seg@.len() <= u ==> #[trigger] run_body(
                final(dst)@.subrange(d0 as int, nd as int).add(rest),
                out,
                u,
            ) == run_body(rest, out.add(seg@), u),
{
    let dlen: usize = dst.len();
    if next_emit >= seg.len() {
        proof {
            assert(seg@.take(seg@.len() as int) =~= seg@);
            assert(dst@.subrange(d as int, d as int) =~= Seq::<u8>::empty());
        }
        return d;
    }
    let lit = slice_subrange(seg, next_emit, seg.len());
    let n = emit_literal(dst, d, lit);
    proof {
        let ghost emitted0 = old(dst)@.subrange(d0 as int, d as int);
        let ghost chunk = lit_chunk(lit@);
        assert forall|k: int| 0 <= k < d implies dst@[k] == old(dst)@[k] by {
            assert(dst@.subrange(0, d as int)[k] == old(dst)@.subrange(0, d as int)[k]);
        }
        assert(dst@.subrange(d0 as int, d as int) =~= emitted0);
        assert(dst@.subrange(d0 as int, (d + n) as int) =~= emitted0.add(chunk));
        assert forall|rest: Seq<u8>, out: Seq<u8>, u: nat|
            out.len() + seg@.len() <= u implies #[trigger] run_body(
            dst@.subrange(d0 as int, (d + n) as int).add(rest),
            out,
            u,
        ) == run_body(rest, out.add(seg@), u) by {
            assert(emitted0.add(chunk).add(rest) =~= emitted0.add(chunk.add(rest)));
            assert(run_body(emitted0.add(chunk.add(rest)), out, u) == run_body(
                chunk.add(rest),
                out.add(seg@.take(next_emit as int)),
                u,
            ));
            lemma_step_literal(lit@, rest, out.add(seg@.take(next_emit as int)), u);
            assert(out.add(seg@.take(next_emit as int)).add(lit@) =~= out.add(seg@));
        }
        assert(lit@ =~= seg@.subrange(next_emit as int, seg@.len() as int));
        assert(dst@.subrange(d as int, (d + n) as int) == spec_remainder(seg@, next_emit as int));
    }
    d + n
}

/// Compress one segment of at most 64 KiB into `dst[d0..]` with a
/// hash-chaining match finder; returns the number of bytes written.  The
/// written bytes, interpreted as body chunks, reproduce the segment after
/// any already-produced output.
#[verifier::rlimit(100)]
fn encode_block(dst: &mut [u8], d0: usize, seg: &[u8]) -> (n: usize)
    requires
        17 <= seg@.len() <= 65536,
        d0 <= old(dst)@.len(),
        6 * (old(dst)@.len() - d0) >= 7 * seg@.len() + 60,
    ensures
        d0 + n <= final(dst)@.len(),
        6 * n <= 7 * seg@.len(),
        final(dst)@.len() == old(dst)@.len(),
        final(dst)@.subrange(0, d0 as int) == old(dst)@.subrange(0, d0 as int),
        final(dst)@.skip((d0 + n) as int) == old(dst)@.skip((d0 + n) as int),
        final(dst)@.subrange(d0 as int, (d0 + n) as int) == spec_encode_block(seg@),
        forall|rest: Seq<u8>, out: Seq<u8>, u: nat|
            out.len() + seg@.len() <= u ==> #[trigger] run_body(
                final(dst)@.subrange(d0 as int, (d0 + n) as int).add(rest),
                out,
                u,
            ) == run_body(rest, out.add(seg@), u),
{
    let dlen: usize = dst.len();
    let len: usize = seg.len();
    let mut shift: u32 = 24;
    let mut table_size: usize = 256;
    proof {
        assert(256u64 == 1u64 << 8) by (bit_vector);
    }
    while table_size < 16384 && table_size < len
        invariant
            256 <= table_size <= 16384,
            18 <= shift <= 24,
            (table_size as u64) == (1u64 << ((32 - shift) as u64)),
            shift == 24 || table_size <= 2 * (len - 1),
            len <= 65536,
        decreases 16384 - table_size,
    {
        proof {
            let k: u64 = (32 - shift) as u64;
            assert((1u64 << k) < 16384 && k <= 14 ==> k <= 13) by (bit_vector);
            assert(k <= 13 ==> 2 * (1u64 << k) == 1u64 << ((k + 1) as u64)) by (bit_vector);
            assert(k <= 13 ==> (1u64 << k) <= 8192) by (bit_vector);
        }
        shift -= 1;
        table_size *= 2;
    }
    proof {
        assert((1u64 << 8) == 256 && (1u64 << 9) == 512 && (1u64 << 10) == 1024 && (1u64 << 11)
            == 2048 && (1u64 << 12) == 4096 && (1u64 << 13) == 8192 && (1u64 << 14) == 16384)
            by (bit_vector);
        assert(table_size == spec_table_size(len as nat) && shift == spec_shift(len as nat)) by {
            if shift == 24 {
                assert(table_size == 256 && len <= 256);
            } else if shift == 23 {
                assert(table_size == 512 && 256 < len <= 512);
            } else if shift == 22 {
                assert(table_size == 1024 && 512 < len <= 1024);
            } else if shift == 21 {
                assert(table_size == 2048 && 1024 < len <= 2048);
            } else if shift == 20 {
                assert(table_size == 4096 && 2048 < len <= 4096);
            } else if shift == 19 {
                assert(table_size == 8192 && 4096 < len <= 8192);
            } else {
                assert(shift == 18 && table_size == 16384 && len > 8192);
            }
        }
    }
    let mut table: Vec<u16> = vec![0u16; table_size];

    let s_limit: usize = len - 15;
    let mut next_emit: usize = 0;
    let mut d: usize = d0;
    let mut s: usize = 1;
    let mut next_hash: u32 = hash(load32(seg, 1), shift);
    proof {
        assert(seg@.take(0) =~= Seq::<u8>::empty());
        assert(dst@.subrange(d0 as int, d0 as int) =~= Seq::<u8>::empty());
        assert forall|rest: Seq<u8>, out: Seq<u8>, u: nat|
            out.len() + seg@.len() <= u implies #[trigger] run_body(
            dst@.subrange(d0 as int, d as int).add(rest),
            out,
            u,
        ) == run_body(rest, out.add(seg@.take(next_emit as int)), u) by {
            assert(dst@.subrange(d0 as int, d as int).add(rest) =~= rest);
            assert(out.add(seg@.take(next_emit as int)) =~= out);
        }
        assert(dst@.skip(d as int) =~= old(dst)@.skip(d as int));
        assert(dst@.subrange(0, d0 as int) =~= old(dst)@.subrange(0, d0 as int));
        assert(table@ =~= zero_table(spec_table_size(len as nat)));
        assert(next_hash == spec_hash(spec_le32(seg@, 1), shift));
        assert(spec_encode_block(seg@) == spec_block_loop(seg@, table@, shift, 0int, next_hash));
        assert(dst@.subrange(d0 as int, d as int).add(
            spec_block_loop(seg@, table@, shift, next_emit as int, next_hash)) =~= spec_block_loop(
            seg@, table@, shift, next_emit as int, next_hash));
    }
    loop
        invariant
            table@.len() == table_size,
            256 <= table_size <= 16384,
            18 <= shift <= 24,
            (table_size as u64) == (1u64 << ((32 - shift) as u64)),
            forall|j: int| 0 <= j < table@.len() ==> (#[trigger] table@[j] as nat) < s,
            (next_hash as usize) < table_size,
            len == seg@.len(),
            17 <= len <= 65536,
            s_limit == len - 15,
            s == next_emit + 1,
            s <= s_limit,
            dlen == dst@.len(),
            dst@.len() == old(dst)@.len(),
            d0 <= d <= dlen,
            6 * (dlen - d0) >= 7 * len + 60,
            6 * (d - d0) <= 7 * next_emit,
            table_size == spec_table_size(len as nat),
            shift == spec_shift(len as nat),
            spec_encode_block(seg@) == dst@.subrange(d0 as int, d as int).add(
                spec_block_loop(seg@, table@, shift, next_emit as int, next_hash),
            ),
            dst@.subrange(0, d0 as int) =~= old(dst)@.subrange(0, d0 as int),
            dst@.skip(d as int) =~= old(dst)@.skip(d as int),
            forall|rest: Seq<u8>, out: Seq<u8>, u: nat|
                out.len() + seg@.len() <= u ==> #[trigger] run_body(
                    dst@.subrange(d0 as int, d as int).add(rest),
                    out,
                    u,
                ) == run_body(rest, out.add(seg@.take(next_emit as int)), u),
        decreases len - next_emit,
    {
        let ghost ne0 = next_emit;
        let ghost t0 = table@;
        let ghost nh0 = next_hash;
        let ghost se = s;
        // search for the next 4-byte match
        let mut skip_gap: usize = 32;
        let mut next_s: usize = s;
        let mut candidate: usize = 0;
        let mut found = false;
        while !found
            invariant
                table@.len() == table_size,
                256 <= table_size <= 16384,
                18 <= shift <= 24,
                (table_size as u64) == (1u64 << ((32 - shift) as u64)),
                (next_hash as usize) < table_size,
                len == seg@.len(),
                17 <= len <= 65536,
                s_limit == len - 15,
                next_emit < s,
                se == next_emit + 1,
                se <= s,
                s <= next_s,
                s <= s_limit,
                32 <= skip_gap,
                skip_gap == 32 + (next_s - se),
                skip_gap <= 64 + 2 * next_s,
                spec_encode_block(seg@) == dst@.subrange(d0 as int, d as int).add(
                    spec_block_loop(seg@, t0, shift, next_emit as int, nh0),
                ),
                !found ==> spec_search(seg@, t0, shift, se as int, 0, nh0) == spec_search(
                    seg@,
                    table@,
                    shift,
                    se as int,
                    (next_s - se) as nat,
                    next_hash,
                ),
                found ==> spec_search(seg@, t0, shift, se as int, 0, nh0) == (
                    true,
                    table@,
                    (s - se) as nat,
                    candidate as int,
                    next_hash,
                ),
                found ==> s + 1 <= s_limit,
                !found ==> next_s <= s_limit,
                !found ==> forall|j: int|
                    0 <= j < table@.len() ==> (#[trigger] table@[j] as nat) < next_s,
                found ==> forall|j: int|
                    0 <= j < table@.len() ==> (#[trigger] table@[j] as nat) <= s,
                found ==> candidate < s,
                found ==> forall|k: int|
                    0 <= k < 4 ==> #[trigger] seg@[candidate + k] == seg@[s + k],
                dlen == dst@.len(),
                dst@.len() == old(dst)@.len(),
                d0 <= d <= dlen,
                6 * (dlen - d0) >= 7 * len + 60,
                6 * (d - d0) <= 7 * next_emit,
                dst@.subrange(0, d0 as int) =~= old(dst)@.subrange(0, d0 as int),
                dst@.skip(d as int) =~= old(dst)@.skip(d as int),
                forall|rest: Seq<u8>, out: Seq<u8>, u: nat|
                    out.len() + seg@.len() <= u ==> #[trigger] run_body(
                        dst@.subrange(d0 as int, d as int).add(rest),
                        out,
                        u,
                    ) == run_body(rest, out.add(seg@.take(next_emit as int)), u),
            decreases (if found { 0int } else { s_limit + 1 - next_s }),
        {
            s = next_s;
            let ghost tb = table@;
            let ghost nhb = next_hash;
            let bytes_between = skip_gap >> 5;
            proof {
                let sg = skip_gap;
                assert(sg >= 32 ==> 1 <= (sg >> 5) && (sg >> 5) * 32 <= sg) by (bit_vector);
                assert((sg >> 5) == sg / 32) by (bit_vector);
                assert(bytes_between == ((32 + (s - se) as nat) / 32));
            }
            next_s = s + bytes_between;
            skip_gap = skip_gap + bytes_between;
            let ghost jg: nat = (s - se) as nat;
            if next_s > s_limit {
                proof {
                    assert(spec_search(seg@, tb, shift, se as int, jg, nhb) == (
                        false, tb, jg, 0int, nhb));
                    assert(spec_block_loop(seg@, t0, shift, next_emit as int, nh0)
                        == spec_remainder(seg@, next_emit as int));
                }
                let ghost pre = dst@;
                let nd = emit_remainder(dst, d0, d, seg, next_emit);
                proof {
                    assert(6 * (nd - d0) <= 7 * len);
                    assert forall|k: int| 0 <= k < d implies dst@[k] == pre[k] by {
                        assert(dst@.subrange(0, d as int)[k] == pre.subrange(0, d as int)[k]);
                    }
                    assert(dst@.subrange(d0 as int, nd as int) =~= pre.subrange(d0 as int, d as int)
                        .add(dst@.subrange(d as int, nd as int)));
                    assert(dst@.subrange(d0 as int, nd as int) == pre.subrange(d0 as int, d as int)
                        .add(spec_remainder(seg@, next_emit as int)));
                    assert(dst@.subrange(d0 as int, nd as int) == spec_encode_block(seg@));
                    assert forall|k: int| nd <= k < dst@.len() implies dst@[k] == pre[k] by {
                        assert(dst@.skip(nd as int)[k - nd] == pre.skip(nd as int)[k - nd]);
                    }
                    assert forall|k: int| d <= k < dst@.len() implies pre[k] == old(dst)@[k] by {
                        assert(pre.skip(d as int)[k - d] == old(dst)@.skip(d as int)[k - d]);
                    }
                    assert(dst@.subrange(0, d0 as int) =~= old(dst)@.subrange(0, d0 as int));
                    assert(dst@.skip(nd as int) =~= old(dst)@.skip(nd as int));
                }
                return nd - d0;
            }
            candidate = table[next_hash as usize] as usize;
            table[next_hash as usize] = s as u16;
            next_hash = hash(load32(seg, next_s), shift);
            proof {
                assert(table@ == tb.update(nhb as int, s as u16));
                assert(candidate as int == tb[nhb as int] as int);
                assert(next_hash == spec_hash(spec_le32(seg@, next_s as int), shift));
            }
            if load32(seg, s) == load32(seg, candidate) {
                proof {
                    lemma_le32_eq_bytes(seg@, candidate as int, s as int);
                    assert(spec_search(seg@, tb, shift, se as int, jg, nhb) == (
                        true, table@, jg, candidate as int, next_hash));
                }
                found = true;
            } else {
                proof {
                    assert(spec_search(seg@, tb, shift, se as int, jg, nhb) == spec_search(
                        seg@, table@, shift, se as int, (jg + bytes_between) as nat, next_hash));
                    assert((jg + bytes_between) as nat == (next_s - se) as nat);
                }
            }
        }

        proof {
            // unfold the round: the found search result selects the chain phase
            assert(spec_block_loop(seg@, t0, shift, next_emit as int, nh0) == lit_chunk(
                seg@.subrange(next_emit as int, s as int)).add(
                spec_match(seg@, table@, shift, s as int, candidate as int)));
        }
        // emit the pending literal in front of the match
        let lit = slice_subrange(seg, next_emit, s);
        let ghost pre_l = dst@;
        let nl = emit_literal(dst, d, lit);
        proof {
            let ghost chunk = lit_chunk(lit@);
            assert forall|k: int| 0 <= k < d implies dst@[k] == pre_l[k] by {
                assert(dst@.subrange(0, d as int)[k] == pre_l.subrange(0, d as int)[k]);
            }
            assert forall|k: int| d + nl <= k < dst@.len() implies dst@[k] == pre_l[k] by {
                assert(dst@.skip((d + nl) as int)[k - d - nl] == pre_l.skip((d + nl) as int)[k - d
                    - nl]);
            }
            assert forall|k: int| d <= k < dst@.len() implies pre_l[k] == old(dst)@[k] by {
                assert(pre_l.skip(d as int)[k - d] == old(dst)@.skip(d as int)[k - d]);
            }
            assert(dst@.subrange(0, d0 as int) =~= old(dst)@.subrange(0, d0 as int));
            assert(dst@.skip((d + nl) as int) =~= old(dst)@.skip((d + nl) as int));
            let ghost emitted0 = pre_l.subrange(d0 as int, d as int);
            assert(dst@.subrange(d0 as int, d as int) =~= emitted0);
            assert(dst@.subrange(d0 as int, (d + nl) as int) =~= emitted0.add(chunk));
            assert forall|rest: Seq<u8>, out: Seq<u8>, u: nat|
                out.len() + seg@.len() <= u implies #[trigger] run_body(
                dst@.subrange(d0 as int, (d + nl) as int).add(rest),
                out,
                u,
            ) == run_body(rest, out.add(seg@.take(s as int)), u) by {
                assert(emitted0.add(chunk).add(rest) =~= emitted0.add(chunk.add(rest)));
                assert(run_body(emitted0.add(chunk.add(rest)), out, u) == run_body(
                    chunk.add(rest),
                    out.add(seg@.take(next_emit as int)),
                    u,
                ));
                lemma_step_literal(lit@, rest, out.add(seg@.take(next_emit as int)), u);
                assert(out.add(seg@.take(next_emit as int)).add(lit@) =~= out.add(
                    seg@.take(s as int)));
            }
            assert(6 * (d + nl - d0) <= 7 * s + 5);
            assert(dst@.subrange(d0 as int, (d + nl) as int).add(
                spec_match(seg@, table@, shift, s as int, candidate as int)) =~= emitted0.add(
                lit_chunk(lit@).add(spec_match(seg@, table@, shift, s as int, candidate as int))));
            assert(spec_encode_block(seg@) == dst@.subrange(d0 as int, (d + nl) as int).add(
                spec_match(seg@, table@, shift, s as int, candidate as int)));
        }
        d += nl;

        // extend the match and emit chunks until the chain breaks
        let mut matched = true;
        while matched
            invariant
                table@.len() == table_size,
                256 <= table_size <= 16384,
                18 <= shift <= 24,
                (table_size as u64) == (1u64 << ((32 - shift) as u64)),
                (next_hash as usize) < table_size,
                len == seg@.len(),
                17 <= len <= 65536,
                s_limit == len - 15,
                dlen == dst@.len(),
                dst@.len() == old(dst)@.len(),
                d0 <= d <= dlen,
                6 * (dlen - d0) >= 7 * len + 60,
                dst@.subrange(0, d0 as int) =~= old(dst)@.subrange(0, d0 as int),
                dst@.skip(d as int) =~= old(dst)@.skip(d as int),
                matched ==> ne0 < s,
                !matched ==> ne0 < next_emit,
                matched ==> s <= s_limit,
                matched ==> candidate < s,
                matched ==> forall|k: int|
                    0 <= k < 4 ==> #[trigger] seg@[candidate + k] == seg@[s + k],
                matched ==> 6 * (d - d0) <= 7 * s + 5,
                table_size == spec_table_size(len as nat),
                shift == spec_shift(len as nat),
                matched ==> spec_encode_block(seg@) == dst@.subrange(d0 as int, d as int).add(
                    spec_match(seg@, table@, shift, s as int, candidate as int),
                ),
                !matched ==> spec_encode_block(seg@) == dst@.subrange(d0 as int, d as int).add(
                    spec_block_loop(seg@, table@, shift, next_emit as int, next_hash),
                ),
                matched ==> forall|j: int|
                    0 <= j < table@.len() ==> (#[trigger] table@[j] as nat) <= s,
                matched ==> forall|rest: Seq<u8>, out: Seq<u8>, u: nat|
                    out.len() + seg@.len() <= u ==> #[trigger] run_body(
                        dst@.subrange(d0 as int, d as int).add(rest),
                        out,
                        u,
                    ) == run_body(rest, out.add(seg@.take(s as int)), u),
                !matched ==> s == next_emit + 1 && s <= s_limit,
                !matched ==> 6 * (d - d0) <= 7 * next_emit,
                !matched ==> forall|j: int|
                    0 <= j < table@.len() ==> (#[trigger] table@[j] as nat) < s,
                !matched ==> forall|rest: Seq<u8>, out: Seq<u8>, u: nat|
                    out.len() + seg@.len() <= u ==> #[trigger] run_body(
                        dst@.subrange(d0 as int, d as int).add(rest),
                        out,
                        u,
                    ) == run_body(rest, out.add(seg@.take(next_emit as int)), u),
            decreases len - s, 1int + (if matched { 0int } else { -1int }),
        {
            let base = s;
            let ghost tm = table@;
            let ghost cand0 = candidate;
            let mut im: usize = candidate + 4;
            s = s + 4;
            while s < len && seg[im] == seg[s]
                invariant
                    len == seg@.len(),
                    base + 4 <= s <= len,
                    im == candidate + (s - base),
                    candidate < base,
                    forall|k: int|
                        0 <= k < s - base ==> #[trigger] seg@[candidate + k] == seg@[base + k],
                    ext_len(seg@, (candidate + 4) as int, (base + 4) as int) == (s - base - 4)
                        + ext_len(seg@, im as int, s as int),
                decreases len - s,
            {
                im += 1;
                s += 1;
            }
            proof {
                assert(ext_len(seg@, im as int, s as int) == 0);
                assert(s == base + 4 + ext_len(seg@, (cand0 + 4) as int, (base + 4) as int));
            }
            let m: usize = s - base;
            let offset: usize = base - candidate;
            proof {
                lemma_copy_chunks_len(offset as nat, m as nat);
            }
            let ghost pre = dst@;
            let cc = emit_copy(dst, d, offset, m);
            proof {
                let w = copy_chunks(offset as nat, m as nat);
                assert forall|k: int| 0 <= k < d implies dst@[k] == pre[k] by {
                    assert(dst@.subrange(0, d as int)[k] == pre.subrange(0, d as int)[k]);
                }
                assert(dst@.subrange(d0 as int, d as int) =~= pre.subrange(d0 as int, d as int));
                assert forall|rest: Seq<u8>, out: Seq<u8>, u: nat|
                    out.len() + seg@.len() <= u implies #[trigger] run_body(
                    dst@.subrange(d0 as int, (d + cc) as int).add(rest),
                    out,
                    u,
                ) == run_body(rest, out.add(seg@.take(s as int)), u) by {
                    let emitted0 = pre.subrange(d0 as int, d as int);
                    assert(dst@.subrange(d0 as int, (d + cc) as int) =~= emitted0.add(w));
                    assert(emitted0.add(w).add(rest) =~= emitted0.add(w.add(rest)));
                    assert(run_body(emitted0.add(w.add(rest)), out, u) == run_body(
                        w.add(rest),
                        out.add(seg@.take(base as int)),
                        u,
                    ));
                    let o2 = out.add(seg@.take(base as int));
                    lemma_run_copy_chunks(offset as nat, m as nat, rest, o2, u);
                    let t = out.add(seg@.take(s as int));
                    assert(t.take(o2.len() as int) =~= o2);
                    assert forall|k: int| o2.len() <= k < t.len() implies #[trigger] t[k] == t[k
                        - offset] by {
                        let j = k - out.len() - base;
                        assert(t[k] == seg@[base + j]);
                        assert(t[k - offset] == seg@[candidate + j]);
                    }
                    lemma_back_copy_matches(o2, offset as nat, m as nat, t);
                }
                assert forall|k: int| d + cc <= k < dst@.len() implies dst@[k] == pre[k] by {
                    assert(dst@.skip((d + cc) as int)[k - d - cc] == pre.skip((d + cc) as int)[k
                        - d - cc]);
                }
                assert forall|k: int| d <= k < dst@.len() implies pre[k] == old(dst)@[k] by {
                    assert(pre.skip(d as int)[k - d] == old(dst)@.skip(d as int)[k - d]);
                }
                assert(dst@.skip((d + cc) as int) =~= old(dst)@.skip((d + cc) as int));
                assert(dst@.subrange(0, d0 as int) =~= old(dst)@.subrange(0, d0 as int));
            }
            d += cc;
            next_emit = s;
            let ghost cont: Seq<u8> = (if s >= s_limit {
                spec_remainder(seg@, s as int)
            } else {
                let prev_h = spec_hash(spec_le32(seg@, s - 1), shift);
                let t1 = tm.update(prev_h as int, (s - 1) as u16);
                let curr_h = spec_hash(spec_le32(seg@, s as int), shift);
                let cand2 = t1[curr_h as int] as int;
                let t2 = t1.update(curr_h as int, s as u16);
                if spec_le32(seg@, s as int) != spec_le32(seg@, cand2) {
                    spec_block_loop(seg@, t2, shift, s as int,
                        spec_hash(spec_le32(seg@, s + 1), shift))
                } else {
                    spec_match(seg@, t2, shift, s as int, cand2)
                }
            });
            proof {
                assert(6 * (d - d0) <= 7 * s - 5);
                let chunk = copy_chunks((base - cand0) as nat, (s - base) as nat);
                assert(spec_match(seg@, tm, shift, base as int, cand0 as int) == chunk.add(cont));
                assert(dst@.subrange(d0 as int, d as int) =~= dst@.subrange(
                    d0 as int, (d - cc) as int).add(chunk));
                assert(dst@.subrange(d0 as int, (d - cc) as int).add(chunk.add(cont))
                    =~= dst@.subrange(d0 as int, d as int).add(cont));
                assert(spec_encode_block(seg@) == dst@.subrange(d0 as int, d as int).add(cont));
            }
            if s >= s_limit {
                proof {
                    assert(cont == spec_remainder(seg@, s as int));
                }
                let ghost pre_r = dst@;
                let nd = emit_remainder(dst, d0, d, seg, next_emit);
                proof {
                    assert(6 * (nd - d0) <= 7 * len);
                    assert forall|k: int| 0 <= k < d implies dst@[k] == pre_r[k] by {
                        assert(dst@.subrange(0, d as int)[k] == pre_r.subrange(0, d as int)[k]);
                    }
                    assert(dst@.subrange(d0 as int, nd as int) =~= pre_r.subrange(
                        d0 as int, d as int).add(dst@.subrange(d as int, nd as int)));
                    assert(dst@.subrange(d0 as int, nd as int) == spec_encode_block(seg@));
                    assert forall|k: int| nd <= k < dst@.len() implies dst@[k] == pre_r[k] by {
                        assert(dst@.skip(nd as int)[k - nd] == pre_r.skip(nd as int)[k - nd]);
                    }
                    assert forall|k: int| d <= k < dst@.len() implies pre_r[k] == old(dst)@[k] by {
                        assert(pre_r.skip(d as int)[k - d] == old(dst)@.skip(d as int)[k - d]);
                    }
                    assert(dst@.subrange(0, d0 as int) =~= old(dst)@.subrange(0, d0 as int));
                    assert(dst@.skip(nd as int) =~= old(dst)@.skip(nd as int));
                }
                return nd - d0;
            }
            let prev_hash = hash(load32(seg, s - 1), shift);
            table[prev_hash as usize] = (s - 1) as u16;
            let curr_hash = hash(load32(seg, s), shift);
            candidate = table[curr_hash as usize] as usize;
            table[curr_hash as usize] = s as u16;
            proof {
                let t1 = tm.update(prev_hash as int, (s - 1) as u16);
                assert(table@ == t1.update(curr_hash as int, s as u16));
                assert(candidate as int == t1[curr_hash as int] as int);
            }
            if load32(seg, s) != load32(seg, candidate) {
                next_hash = hash(load32(seg, s + 1), shift);
                proof {
                    assert(cont == spec_block_loop(seg@, table@, shift, s as int, next_hash));
                    assert(spec_encode_block(seg@) == dst@.subrange(d0 as int, d as int).add(
                        spec_block_loop(seg@, table@, shift, s as int, next_hash)));
                }
                s += 1;
                matched = false;
            } else {
                proof {
                    lemma_le32_eq_bytes(seg@, candidate as int, s as int);
                    assert(cont == spec_match(seg@, table@, shift, s as int, candidate as int));
                    assert(spec_encode_block(seg@) == dst@.subrange(d0 as int, d as int).add(
                        spec_match(seg@, table@, shift, s as int, candidate as int)));
                }
            }
        }
    }
}

/// A literal chunk, interpreted after any prior output, appends its bytes.
proof fn lemma_lit_chunk_runs(lit: Seq<u8>)
    requires
        1 <= lit.len() <= 65536,
    ensures
        forall|rest: Seq<u8>, out: Seq<u8>, u: nat|
            out.len() + lit.len() <= u ==> #[trigger] run_body(lit_chunk(lit).add(rest), out, u)
                == run_body(rest, out.add(lit), u),
{
    assert forall|rest: Seq<u8>, out: Seq<u8>, u: nat|
        out.len() + lit.len() <= u implies #[trigger] run_body(lit_chunk(lit).add(rest), out, u)
        == run_body(rest, out.add(lit), u) by {
        lemma_step_literal(lit, rest, out, u);
    }
}

/// Chaining emissions: if the bytes emitted so far reproduce `src[..q0]` and
/// a further chunk reproduces `src[q0..q1]`, their concatenation reproduces
/// `src[..q1]`.
proof fn lemma_compose_emission(emitted0: Seq<u8>, chunk: Seq<u8>, src: Seq<u8>, q0: int, q1: int)
    requires
        0 <= q0 <= q1 <= src.len(),
        forall|rest: Seq<u8>, out: Seq<u8>, u: nat|
            out.len() + src.len() <= u ==> #[trigger] run_body(emitted0.add(rest), out, u)
                == run_body(rest, out.add(src.take(q0)), u),
        forall|rest: Seq<u8>, out: Seq<u8>, u: nat|
            out.len() + (q1 - q0) <= u ==> #[trigger] run_body(chunk.add(rest), out, u)
                == run_body(rest, out.add(src.subrange(q0, q1)), u),
    ensures
        forall|rest: Seq<u8>, out: Seq<u8>, u: nat|
            out.len() + src.len() <= u ==> #[trigger] run_body(emitted0.add(chunk).add(rest), out, u)
                == run_body(rest, out.add(src.take(q1)), u),
{
    assert forall|rest: Seq<u8>, out: Seq<u8>, u: nat|
        out.len() + src.len() <= u implies #[trigger] run_body(
        emitted0.add(chunk).add(rest),
        out,
        u,
    ) == run_body(rest, out.add(src.take(q1)), u) by {
        assert(emitted0.add(chunk).add(rest) =~= emitted0.add(chunk.add(rest)));
        assert(run_body(emitted0.add(chunk.add(rest)), out, u) == run_body(
            chunk.add(rest),
            out.add(src.take(q0)),
            u,
        ));
        let o2 = out.add(src.take(q0));
        assert(o2.len() + (q1 - q0) <= u);
        assert(run_body(chunk.add(rest), o2, u) == run_body(rest, o2.add(src.subrange(q0, q1)), u));
        assert(o2.add(src.subrange(q0, q1)) =~= out.add(src.take(q1)));
    }
}

/// Unfolding `spec_encode_rest` at a short tail: one literal, then done.
proof fn lemma_encode_rest_tail(src: Seq<u8>, q0: int)
    requires
        0 <= q0 < src.len(),
        src.len() - q0 < 17,
    ensures
        spec_encode_rest(src, q0) == lit_chunk(src.subrange(q0, src.len() as int)).add(
            spec_encode_rest(src, src.len() as int),
        ),
{
    assert(src.skip(q0) =~= src.subrange(q0, src.len() as int));
    assert(lit_chunk(src.skip(q0)).add(Seq::<u8>::empty()) =~= lit_chunk(src.skip(q0)));
}

/// Unfolding `spec_encode_rest` at a full segment: one block, then the rest.
proof fn lemma_encode_rest_step(src: Seq<u8>, q0: int, q2: int)
    requires
        0 <= q0 < src.len(),
        17 <= src.len() - q0,
        q2 == if src.len() - q0 > 65536 {
            q0 + 65536
        } else {
            src.len() as int
        },
    ensures
        spec_encode_rest(src, q0) == spec_encode_block(src.subrange(q0, q2)).add(
            spec_encode_rest(src, q2),
        ),
{
    if src.len() - q0 > 65536 {
    } else {
        assert(spec_encode_rest(src, q2) == Seq::<u8>::empty());
        assert(spec_encode_block(src.subrange(q0, q2)).add(Seq::<u8>::empty())
            =~= spec_encode_block(src.subrange(q0, q2)));
    }
}

/// Compress `src` into the front of `dst` as one complete Snappy block and
/// return its length.  `dst` must offer `max_encode_len(src.len())` bytes of
/// room.  The block's header names exactly `src.len()`, and decoding the
/// block yields `src` again.
#[verifier::rlimit(100)]
pub fn encode(dst: &mut [u8], src: &[u8]) -> (n: usize)
    requires
        spec_max_encode_len(src@.len() as nat) != 0,
        old(dst)@.len() >= spec_max_encode_len(src@.len() as nat),
        usize::MAX == 0xffff_ffff ==> src@.len() <= 0x7fff_ffff,
    ensures
        n <= spec_max_encode_len(src@.len() as nat),
        final(dst)@.len() == old(dst)@.len(),
        final(dst)@.skip(n as int) == old(dst)@.skip(n as int),
        spec_decode_len(final(dst)@.take(n as int)) == Ok::<(nat, nat), SnappyError>(
            (src@.len() as nat, varint_len(src@.len() as u64)),
        ),
        spec_decode(final(dst)@.take(n as int)) == Ok::<Seq<u8>, SnappyError>(src@),
        final(dst)@.take(n as int) == spec_encode(src@),
        n == spec_encode(src@).len(),
{
    let dlen: usize = dst.len();
    let ghost nn = src@.len();
    proof {
        lemma_varint_fits_u32(nn as u64);
        assert((nn as nat / 6) * 6 + 5 >= nn) by (nonlinear_arith);
        assert(6 * dlen >= 187 + 7 * nn);
    }
    let h = put_uvarint(dst, src.len() as u64);
    let mut d: usize = h;
    let mut q: usize = 0;
    proof {
        assert(src@.take(0) =~= Seq::<u8>::empty());
        assert(dst@.subrange(h as int, d as int) =~= Seq::<u8>::empty());
        assert(dst@.subrange(h as int, d as int).add(spec_encode_rest(src@, 0))
            =~= spec_encode_rest(src@, 0));
        assert forall|rest: Seq<u8>, out: Seq<u8>, u: nat|
            out.len() + nn <= u implies #[trigger] run_body(
            dst@.subrange(h as int, d as int).add(rest),
            out,
            u,
        ) == run_body(rest, out.add(src@.take(q as int)), u) by {
            assert(dst@.subrange(h as int, d as int).add(rest) =~= rest);
            assert(out.add(src@.take(q as int)) =~= out);
        }
    }
    while q < src.len()
        invariant
            q <= nn,
            nn == src@.len() <= 0xffff_ffff,
            h == varint_len(nn as u64),
            h <= 5,
            h <= d <= dlen,
            dlen == dst@.len(),
            dst@.len() == old(dst)@.len(),
            6 * dlen >= 187 + 7 * nn,
            q < nn ==> 6 * (d - h) <= 7 * q,
            q == nn ==> 6 * (d - h) <= 7 * q + 5,
            dst@.subrange(0, h as int) =~= varint_bytes(nn as u64),
            dst@.skip(d as int) =~= old(dst)@.skip(d as int),
            spec_encode_rest(src@, 0) == dst@.subrange(h as int, d as int).add(
                spec_encode_rest(src@, q as int),
            ),
            forall|rest: Seq<u8>, out: Seq<u8>, u: nat|
                out.len() + nn <= u ==> #[trigger] run_body(
                    dst@.subrange(h as int, d as int).add(rest),
                    out,
                    u,
                ) == run_body(rest, out.add(src@.take(q as int)), u),
        decreases nn - q,
    {
        let rem = src.len() - q;
        let ghost pre = dst@;
        let ghost q0 = q;
        let nb: usize;
        let seg_end: usize;
        if rem < 17 {
            let lit = slice_subrange(src, q, src.len());
            nb = emit_literal(dst, d, lit);
            seg_end = src.len();
            proof {
                let ghost emitted0 = pre.subrange(h as int, d as int);
                let ghost chunk = lit_chunk(lit@);
                assert forall|k: int| 0 <= k < d implies dst@[k] == pre[k] by {
                    assert(dst@.subrange(0, d as int)[k] == pre.subrange(0, d as int)[k]);
                }
                assert(dst@.subrange(h as int, d as int) =~= emitted0);
                assert(dst@.subrange(h as int, (d + nb) as int) =~= emitted0.add(chunk));
                assert(lit@ =~= src@.subrange(q0 as int, seg_end as int));
                lemma_lit_chunk_runs(lit@);
                lemma_compose_emission(emitted0, chunk, src@, q0 as int, seg_end as int);
                assert(6 * (d + nb - h) <= 7 * seg_end + 5);
                lemma_encode_rest_tail(src@, q0 as int);
                assert(dst@.subrange(h as int, (d + nb) as int).add(
                    spec_encode_rest(src@, seg_end as int)) =~= emitted0.add(chunk.add(
                    spec_encode_rest(src@, seg_end as int))));
                assert(spec_encode_rest(src@, 0) == dst@.subrange(h as int, (d + nb) as int).add(
                    spec_encode_rest(src@, seg_end as int)));
            }
        } else if rem > 65536 {
            let seg = slice_subrange(src, q, q + 65536);
            nb = encode_block(dst, d, seg);
            seg_end = q + 65536;
            proof {
                let ghost emitted0 = pre.subrange(h as int, d as int);
                let ghost chunk = dst@.subrange(d as int, (d + nb) as int);
                assert forall|k: int| 0 <= k < d implies dst@[k] == pre[k] by {
                    assert(dst@.subrange(0, d as int)[k] == pre.subrange(0, d as int)[k]);
                }
                assert(dst@.subrange(h as int, d as int) =~= emitted0);
                assert(dst@.subrange(h as int, (d + nb) as int) =~= emitted0.add(chunk));
                assert(seg@ == src@.subrange(q0 as int, seg_end as int));
                lemma_compose_emission(emitted0, chunk, src@, q0 as int, seg_end as int);
                assert(chunk == spec_encode_block(seg@));
                lemma_encode_rest_step(src@, q0 as int, seg_end as int);
                assert(dst@.subrange(h as int, (d + nb) as int).add(
                    spec_encode_rest(src@, seg_end as int)) =~= emitted0.add(chunk.add(
                    spec_encode_rest(src@, seg_end as int))));
                assert(spec_encode_rest(src@, 0) == dst@.subrange(h as int, (d + nb) as int).add(
                    spec_encode_rest(src@, seg_end as int)));
            }
        } else {
            let seg = slice_subrange(src, q, src.len());
            nb = encode_block(dst, d, seg);
            seg_end = src.len();
            proof {
                let ghost emitted0 = pre.subrange(h as int, d as int);
                let ghost chunk = dst@.subrange(d as int, (d + nb) as int);
                assert forall|k: int| 0 <= k < d implies dst@[k] == pre[k] by {
                    assert(dst@.subrange(0, d as int)[k] == pre.subrange(0, d as int)[k]);
                }
                assert(dst@.subrange(h as int, d as int) =~= emitted0);
                assert(dst@.subrange(h as int, (d + nb) as int) =~= emitted0.add(chunk));
                assert(seg@ == src@.subrange(q0 as int, seg_end as int));
                lemma_compose_emission(emitted0, chunk, src@, q0 as int, seg_end as int);
                assert(chunk == spec_encode_block(seg@));
                lemma_encode_rest_step(src@, q0 as int, seg_end as int);
                assert(dst@.subrange(h as int, (d + nb) as int).add(
                    spec_encode_rest(src@, seg_end as int)) =~= emitted0.add(chunk.add(
                    spec_encode_rest(src@, seg_end as int))));
                assert(spec_encode_rest(src@, 0) == dst@.subrange(h as int, (d + nb) as int).add(
                    spec_encode_rest(src@, seg_end as int)));
            }
        }
        proof {
            assert forall|k: int| d + nb <= k < dst@.len() implies dst@[k] == pre[k] by {
                assert(dst@.skip((d + nb) as int)[k - d - nb] == pre.skip((d + nb) as int)[k - d
                    - nb]);
            }
            assert forall|k: int| d <= k < dst@.len() implies pre[k] == old(dst)@[k] by {
                assert(pre.skip(d as int)[k - d] == old(dst)@.skip(d as int)[k - d]);
            }
            assert(dst@.skip((d + nb) as int) =~= old(dst)@.skip((d + nb) as int));
            assert(dst@.subrange(0, h as int) =~= varint_bytes(nn as u64));
        }
        d += nb;
        q = seg_end;
    }
    proof {
        let b = dst@.take(d as int);
        assert(b.subrange(0, h as int) =~= varint_bytes(nn as u64));
        let body = dst@.subrange(h as int, d as int);
        assert(b =~= varint_bytes(nn as u64).add(body));
        lemma_parse_varint_bytes(nn as u64, body, 0, 0);
        let y64: u64 = nn as u64;
        assert(0u64 | (y64 << 0u64) == y64) by (bit_vector);
        assert(crate::binary::spec_uvarint(b) == (nn as u64, h as int));
        assert(spec_decode_len(b) == Ok::<(nat, nat), SnappyError>((nn as nat, h as nat)));
        assert(b.skip(h as int) =~= body);
        assert(body.add(Seq::<u8>::empty()) =~= body);
        assert(run_body(body.add(Seq::<u8>::empty()), Seq::<u8>::empty(), nn as nat) == run_body(
            Seq::<u8>::empty(),
            Seq::<u8>::empty().add(src@.take(nn as int)),
            nn as nat,
        ));
        assert(src@.take(nn as int) =~= src@);
        assert(Seq::<u8>::empty().add(src@.take(nn as int)) =~= src@);
        assert(run_body(Seq::<u8>::empty(), src@, nn as nat) == Ok::<Seq<u8>, SnappyError>(src@));
        assert(spec_encode_rest(src@, q as int) == Seq::<u8>::empty());
        assert(body.add(spec_encode_rest(src@, q as int)) =~= body);
        assert(spec_encode_rest(src@, 0) == body);
        assert(b == spec_encode(src@));
        assert(6 * d <= 6 * h + 7 * nn + 5);
        assert(6 * spec_max_encode_len(nn as nat) >= 187 + 7 * nn) by {
            assert((nn as nat / 6) * 6 + 5 >= nn) by (nonlinear_arith);
        }
    }
    d
}

} // verus!
