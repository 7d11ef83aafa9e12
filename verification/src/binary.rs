//! Byte-level primitives: unsigned varints and little-endian word loads.
//!
//! A varint stores a value in 7-bit groups, least significant group first;
//! the high bit of every byte but the last is set as a continuation flag.

use vstd::prelude::*;

verus! {

/// The wire bytes of `x` as an unsigned varint.
pub open spec fn varint_bytes(x: u64) -> Seq<u8>
    decreases x,
{
    if x < 0x80 {
        seq![x as u8]
    } else {
        seq![((x % 0x80) + 0x80) as u8].add(varint_bytes(x / 0x80))
    }
}

/// How many bytes the varint encoding of `x` takes.
pub open spec fn varint_len(x: u64) -> nat {
    varint_bytes(x).len()
}

/// One step of varint parsing: `buf` is the unread input, `i` the number of
/// groups already consumed, `x` the value accumulated so far.  The result is
/// the pair `(value, consumed)` with `consumed > 0` on success, `0` when the
/// input ran out before a terminator byte, and `-(j+1)` when the encoding
/// overflows 64 bits at byte index `j`.
pub open spec fn uvarint_rec(buf: Seq<u8>, i: nat, x: u64) -> (u64, int)
    decreases buf.len(),
{
    if buf.len() == 0 {
        (0u64, 0int)
    } else if i >= 10 {
        (0u64, -11int)
    } else {
        let b = buf[0];
        if b < 0x80 {
            if i == 9 && b > 1 {
                (0u64, -10int)
            } else {
                (x | ((b as u64) << ((7 * i) as u64)), i as int + 1)
            }
        } else {
            uvarint_rec(buf.skip(1), (i + 1) as nat, x | (((b & 0x7f) as u64) << ((7 * i) as u64)))
        }
    }
}

/// Parse one unsigned varint from the front of `buf`.
pub open spec fn spec_uvarint(buf: Seq<u8>) -> (u64, int) {
    uvarint_rec(buf, 0, 0)
}

/// `x` fits in the groups that remain when `i` groups are already consumed:
/// the encoding ends by the tenth byte, and a tenth byte carries at most one
/// data bit.
pub open spec fn varint_fits(x: u64, i: nat) -> bool
    decreases x,
{
    if x < 0x80 {
        i < 9 || (i == 9 && x <= 1)
    } else {
        i < 9 && varint_fits(x / 0x80, i + 1)
    }
}

/// Parsing the encoding of `x` (with anything appended) consumes exactly the
/// encoding and folds `x` into the accumulator.
pub proof fn lemma_parse_varint_bytes(y: u64, rest: Seq<u8>, i: nat, x: u64)
    requires
        varint_fits(y, i),
    ensures
        uvarint_rec(varint_bytes(y).add(rest), i, x) == (
            (x | (y << ((7 * i) as u64))),
            i as int + varint_len(y) as int,
        ),
    decreases y,
{
    let bytes = varint_bytes(y).add(rest);
    if y < 0x80 {
        assert(bytes[0] == y as u8);
        assert((y as u8) < 0x80) by (bit_vector)
            requires y < 0x80;
        assert((y as u8) as u64 == y) by (bit_vector)
            requires y < 0x80;
    } else {
        let b: u8 = ((y % 0x80) + 0x80) as u8;
        assert(bytes[0] == b);
        assert(b >= 0x80) by (bit_vector)
            requires b == ((y % 0x80) + 0x80) as u8 && y >= 0x80;
        assert(bytes.skip(1) =~= varint_bytes(y / 0x80).add(rest));
        lemma_parse_varint_bytes(y / 0x80, rest, i + 1, x | (((b & 0x7f) as u64) << ((7 * i) as u64)));
        let s: u64 = (7 * i) as u64;
        assert(i < 9);
        assert(s <= 56);
        assert((7 * (i + 1)) as u64 == s + 7);
        assert((x | (((b & 0x7f) as u64) << s)) | ((y / 0x80) << (s + 7)) == x | (y << s))
            by (bit_vector)
            requires
                b == ((y % 0x80) + 0x80) as u8,
                s <= 56,
                y >= 0x80,
        ;
        assert(varint_len(y) == 1 + varint_len(y / 0x80));
    }
}

/// A value below 2^32 fits in five varint bytes.
pub proof fn lemma_varint_fits_u32(y: u64)
    requires
        y <= 0xffff_ffff,
    ensures
        varint_fits(y, 0),
        varint_len(y) <= 5,
{
    let y1 = y / 0x80;
    let y2 = y1 / 0x80;
    let y3 = y2 / 0x80;
    let y4 = y3 / 0x80;
    assert(y1 <= 0x1ff_ffff && y2 <= 0x3ffff && y3 <= 0x7ff && y4 <= 0xf) by (nonlinear_arith)
        requires y <= 0xffff_ffff && y1 == y / 0x80 && y2 == y1 / 0x80 && y3 == y2 / 0x80
            && y4 == y3 / 0x80;
    assert(varint_fits(y4, 4));
    assert(varint_fits(y3, 3));
    assert(varint_fits(y2, 2));
    assert(varint_fits(y1, 1));
    assert(varint_fits(y, 0));
    assert(varint_len(y4) == 1);
    assert(varint_len(y3) <= 2);
    assert(varint_len(y2) <= 3);
    assert(varint_len(y1) <= 4);
    assert(varint_len(y) <= 5);
}

/// A varint encoding is never empty.
pub proof fn lemma_varint_len_pos(y: u64)
    ensures
        varint_len(y) >= 1,
{
    if y < 0x80 {
        assert(varint_bytes(y) == seq![y as u8]);
    } else {
        assert(varint_bytes(y) == seq![((y % 0x80) + 0x80) as u8].add(varint_bytes(y / 0x80)));
    }
}

/// A successful parse consumes at least one and at most all of the bytes.
pub proof fn lemma_uvarint_bounds(buf: Seq<u8>, i: nat, x: u64)
    ensures
        uvarint_rec(buf, i, x).1 <= i + buf.len(),
        uvarint_rec(buf, i, x).1 > 0 ==> uvarint_rec(buf, i, x).1 > i as int,
    decreases buf.len(),
{
    if buf.len() == 0 || i >= 10 {
    } else if buf[0] >= 0x80 {
        lemma_uvarint_bounds(buf.skip(1), (i + 1) as nat,
            x | (((buf[0] & 0x7f) as u64) << ((7 * i) as u64)));
    }
}

/// Cutting the input before the terminator byte of a varint that parses
/// leaves nothing but continuation bytes, so the parse reports exhaustion.
pub proof fn lemma_uvarint_truncate(buf: Seq<u8>, k: int, i: nat, x: u64, x2: u64)
    requires
        uvarint_rec(buf, i, x).1 > i as int,
        0 <= k < uvarint_rec(buf, i, x).1 - i as int,
    ensures
        uvarint_rec(buf.take(k), i, x2) == (0u64, 0int),
    decreases k,
{
    lemma_uvarint_bounds(buf, i, x);
    if k == 0 {
        assert(buf.take(0) =~= Seq::<u8>::empty());
    } else {
        assert(buf[0] >= 0x80);
        assert(buf.take(k).skip(1) =~= buf.skip(1).take(k - 1));
        lemma_uvarint_bounds(buf.skip(1), (i + 1) as nat,
            x | (((buf[0] & 0x7f) as u64) << ((7 * i) as u64)));
        lemma_uvarint_truncate(
            buf.skip(1),
            k - 1,
            (i + 1) as nat,
            x | (((buf[0] & 0x7f) as u64) << ((7 * i) as u64)),
            x2 | (((buf[0] & 0x7f) as u64) << ((7 * i) as u64)),
        );
    }
}

/// A varint parse reads only the bytes it consumes: keeping at least that
/// many gives the same answer.
pub proof fn lemma_uvarint_take(buf: Seq<u8>, m: int, i: nat, x: u64)
    requires
        uvarint_rec(buf, i, x).1 > i as int,
        uvarint_rec(buf, i, x).1 - i as int <= m <= buf.len(),
    ensures
        uvarint_rec(buf.take(m), i, x) == uvarint_rec(buf, i, x),
    decreases buf.len(),
{
    assert(buf.take(m).len() != 0);
    if buf[0] >= 0x80 {
        assert(buf.take(m).skip(1) =~= buf.skip(1).take(m - 1));
        lemma_uvarint_bounds(buf.skip(1), (i + 1) as nat,
            x | (((buf[0] & 0x7f) as u64) << ((7 * i) as u64)));
        lemma_uvarint_take(buf.skip(1), m - 1, (i + 1) as nat,
            x | (((buf[0] & 0x7f) as u64) << ((7 * i) as u64)));
    }
}

/// Write `x` to the front of `buf` as an unsigned varint; the byte count is
/// returned and the rest of `buf` is left as it was.
pub fn put_uvarint(buf: &mut [u8], x: u64) -> (n: usize)
    requires
        varint_len(x) <= old(buf)@.len(),
    ensures
        n == varint_len(x),
        final(buf)@.len() == old(buf)@.len(),
        final(buf)@.subrange(0, n as int) == varint_bytes(x),
        final(buf)@.skip(n as int) == old(buf)@.skip(n as int),
{
    let ghost total = varint_len(x) as int;
    let mut xx: u64 = x;
    let mut i: usize = 0;
    while xx >= 0x80
        invariant
            buf@.len() == old(buf)@.len(),
            i + varint_len(xx) == varint_len(x),
            varint_len(x) <= buf@.len(),
            varint_bytes(x) =~= buf@.subrange(0, i as int).add(varint_bytes(xx)),
            buf@.skip(total) =~= old(buf)@.skip(total),
            total == varint_len(x) as int,
        decreases xx,
    {
        proof {
            assert(varint_bytes(xx) == seq![((xx % 0x80) + 0x80) as u8].add(
                varint_bytes(xx / 0x80)));
            lemma_varint_len_pos(xx / 0x80);
            assert(varint_len(xx) >= 2);
        }
        let ghost pre = buf@;
        buf[i] = #[verifier::truncate] (xx as u8) | 0x80;
        proof {
            assert((xx as u8) | 0x80 == ((xx % 0x80) + 0x80) as u8) by (bit_vector)
                requires xx >= 0x80;
            assert(xx >> 7 == xx / 0x80) by (bit_vector);
            assert(buf@.subrange(0, i + 1) =~= pre.subrange(0, i as int).push(((xx % 0x80) + 0x80) as u8));
            assert(buf@.subrange(0, i as int) =~= pre.subrange(0, i as int));
            assert(buf@.skip(total) =~= pre.skip(total));
            assert(varint_bytes(xx) == seq![((xx % 0x80) + 0x80) as u8].add(varint_bytes(xx >> 7)));
            assert(buf@.subrange(0, i + 1).add(varint_bytes(xx >> 7))
                =~= buf@.subrange(0, i as int).add(varint_bytes(xx)));
        }
        xx = xx >> 7;
        i += 1;
    }
    assert(varint_len(xx) == 1);
    let ghost pre = buf@;
    buf[i] = xx as u8;
    proof {
        assert(varint_bytes(xx) == seq![xx as u8]);
        assert(buf@.subrange(0, i + 1) =~= pre.subrange(0, i as int).push(xx as u8));
        assert(buf@.subrange(0, i as int) =~= pre.subrange(0, i as int));
        assert(buf@.subrange(0, i + 1) =~= varint_bytes(x));
        assert(buf@.skip(total) =~= pre.skip(total));
    }
    i + 1
}

/// Read one unsigned varint from the front of `buf`.  The second component
/// is positive (bytes consumed) on success, `0` when the buffer ended before
/// a terminator byte, and negative on 64-bit overflow.
pub fn uvarint(buf: &[u8]) -> (r: (u64, isize))
    ensures
        (r.0, r.1 as int) == spec_uvarint(buf@),
        -11 <= r.1 <= 10,
{
    let mut x: u64 = 0;
    let mut s: u32 = 0;
    let mut i: usize = 0;
    proof {
        assert(buf@.skip(0) =~= buf@);
    }
    while i < buf.len()
        invariant
            i <= buf@.len(),
            i <= 10,
            s == 7 * i,
            spec_uvarint(buf@) == uvarint_rec(buf@.skip(i as int), i as nat, x),
        decreases buf@.len() - i,
    {
        if i == 10 {
            return (0, -11);
        }
        let b = buf[i];
        assert(buf@.skip(i as int)[0] == b);
        if b < 0x80 {
            if i == 9 && b > 1 {
                return (0, -10);
            }
            return (x | ((b as u64) << s), (i + 1) as isize);
        }
        proof {
            assert(buf@.skip(i as int).skip(1) =~= buf@.skip(i + 1));
        }
        x = x | (((b & 0x7f) as u64) << s);
        s += 7;
        i += 1;
    }
    assert(buf@.skip(i as int) =~= Seq::<u8>::empty());
    (0, 0)
}

/// The little-endian 32-bit word formed by four bytes of `b` starting at `i`.
pub open spec fn spec_le32(b: Seq<u8>, i: int) -> u32
    recommends
        0 <= i,
        i + 4 <= b.len(),
{
    (b[i] as u32) | ((b[i + 1] as u32) << 8) | ((b[i + 2] as u32) << 16) | ((b[i + 3] as u32)
        << 24)
}

/// The little-endian 64-bit word formed by eight bytes of `b` starting at `i`.
pub open spec fn spec_le64(b: Seq<u8>, i: int) -> u64
    recommends
        0 <= i,
        i + 8 <= b.len(),
{
    (b[i] as u64) | ((b[i + 1] as u64) << 8) | ((b[i + 2] as u64) << 16) | ((b[i + 3] as u64)
        << 24) | ((b[i + 4] as u64) << 32) | ((b[i + 5] as u64) << 40) | ((b[i + 6] as u64) << 48)
        | ((b[i + 7] as u64) << 56)
}

/// Equal 32-bit words read at two positions mean the four bytes there agree.
pub proof fn lemma_le32_eq_bytes(b: Seq<u8>, i: int, j: int)
    requires
        0 <= i,
        i + 4 <= b.len(),
        0 <= j,
        j + 4 <= b.len(),
        spec_le32(b, i) == spec_le32(b, j),
    ensures
        forall|k: int| 0 <= k < 4 ==> #[trigger] b[i + k] == b[j + k],
{
    let (a0, a1, a2, a3) = (b[i], b[i + 1], b[i + 2], b[i + 3]);
    let (c0, c1, c2, c3) = (b[j], b[j + 1], b[j + 2], b[j + 3]);
    assert(a0 == c0 && a1 == c1 && a2 == c2 && a3 == c3) by (bit_vector)
        requires (a0 as u32) | ((a1 as u32) << 8) | ((a2 as u32) << 16) | ((a3 as u32) << 24)
            == (c0 as u32) | ((c1 as u32) << 8) | ((c2 as u32) << 16) | ((c3 as u32) << 24);
    assert(b[i + 0] == b[j + 0] && b[i + 1] == b[j + 1] && b[i + 2] == b[j + 2] && b[i + 3]
        == b[j + 3]);
}

/// Read an unaligned little-endian 32-bit word from `b` at byte index `i`.
pub fn load32(b: &[u8], i: usize) -> (r: u32)
    requires
        i + 4 <= b@.len(),
    ensures
        r == spec_le32(b@, i as int),
{
    (b[i] as u32) | ((b[i + 1] as u32) << 8) | ((b[i + 2] as u32) << 16) | ((b[i + 3] as u32)
        << 24)
}

/// Read an unaligned little-endian 64-bit word from `b` at byte index `i`.
pub fn load64(b: &[u8], i: usize) -> (r: u64)
    requires
        i + 8 <= b@.len(),
    ensures
        r == spec_le64(b@, i as int),
{
    (b[i] as u64) | ((b[i + 1] as u64) << 8) | ((b[i + 2] as u64) << 16) | ((b[i + 3] as u64)
        << 24) | ((b[i + 4] as u64) << 32) | ((b[i + 5] as u64) << 40) | ((b[i + 6] as u64) << 48)
        | ((b[i + 7] as u64) << 56)
}

} // verus!
