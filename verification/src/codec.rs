//! Little-endian byte encodings of reference vectors, label words and
//! interleaved blocks, and their decoders.
//!
//! Vectors are stored one after the other, each as `DIMENSIONS` little-endian
//! `u16`s.  Label words are little-endian `u64`s.  A block holds `LANES`
//! vectors feature by feature: for each dimension, the `LANES` values of that
//! feature, as little-endian `u16`s.  Decoders ignore a trailing partial record.

use vstd::prelude::*;
use vstd::arithmetic::div_mod::lemma_div_denominator;
use crate::{Vector, DIMENSIONS, LANES};

verus! {

/// Bytes in one encoded vector.
pub const VECTOR_BYTES: usize = 28;

/// Bytes in one encoded label word.
pub const WORD_BYTES: usize = 8;

/// Bytes in one encoded block.
pub const BLOCK_BYTES: usize = 448;

/// `LANES` vectors stored feature by feature: `block[d][l]` is feature `d`
/// of the vector in lane `l`.
pub type Block = [[u16; LANES]; DIMENSIONS];

/// `256` to the power `n`.
pub open spec fn pow256(n: nat) -> nat
    decreases n,
{
    if n == 0 {
        1
    } else {
        256 * pow256((n - 1) as nat)
    }
}

/// The number whose little-endian bytes are `s`.
pub open spec fn le_value(s: Seq<u8>) -> nat
    decreases s.len(),
{
    if s.len() == 0 {
        0
    } else {
        s[0] as nat + 256 * le_value(s.drop_first())
    }
}

/// Byte `k` of the little-endian encoding of `x`.
pub open spec fn le_digit(x: nat, k: nat) -> u8 {
    ((x / pow256(k)) % 256) as u8
}

/// The little-endian `u16` that starts at byte `off`.
pub open spec fn u16_at(bytes: Seq<u8>, off: int) -> nat {
    le_value(bytes.subrange(off, off + 2))
}

/// The little-endian `u64` that starts at byte `off`.
pub open spec fn u64_at(bytes: Seq<u8>, off: int) -> nat {
    le_value(bytes.subrange(off, off + 8))
}

/// `vs` is what decoding `bytes` as vectors gives: one vector per whole
/// `VECTOR_BYTES` bytes, each feature read as a little-endian `u16`.
pub open spec fn decodes_vectors(bytes: Seq<u8>, vs: Seq<Vector>) -> bool {
    &&& vs.len() == bytes.len() / 28
    &&& forall|i: int, d: int|
        0 <= i < vs.len() && 0 <= d < DIMENSIONS ==> #[trigger] vs[i][d] == u16_at(bytes, 28 * i + 2 * d)
}

/// `ws` is what decoding `bytes` as label words gives: one little-endian
/// `u64` per whole `WORD_BYTES` bytes.
pub open spec fn decodes_words(bytes: Seq<u8>, ws: Seq<u64>) -> bool {
    &&& ws.len() == bytes.len() / 8
    &&& forall|w: int| 0 <= w < ws.len() ==> #[trigger] ws[w] == u64_at(bytes, 8 * w)
}

/// `bs` is what decoding `bytes` as blocks gives: one block per whole
/// `BLOCK_BYTES` bytes, each value read as a little-endian `u16`.
pub open spec fn decodes_blocks(bytes: Seq<u8>, bs: Seq<Block>) -> bool {
    &&& bs.len() == bytes.len() / 448
    &&& forall|b: int, d: int, l: int|
        0 <= b < bs.len() && 0 <= d < DIMENSIONS && 0 <= l < LANES ==> #[trigger] bs[b][d][l]
            == u16_at(bytes, 448 * b + 32 * d + 2 * l)
}

/// `bytes` holds the vectors `vs`, one after the other.
pub open spec fn encodes_vectors(bytes: Seq<u8>, vs: Seq<Vector>) -> bool {
    &&& bytes.len() == VECTOR_BYTES * vs.len()
    &&& forall|p: int|
        0 <= p < bytes.len() ==> #[trigger] bytes[p] == le_digit(
            vs[p / 28][(p % 28) / 2] as nat,
            (p % 2) as nat,
        )
}

/// `bytes` holds the label words `ws`, one after the other.
pub open spec fn encodes_words(bytes: Seq<u8>, ws: Seq<u64>) -> bool {
    &&& bytes.len() == WORD_BYTES * ws.len()
    &&& forall|p: int|
        0 <= p < bytes.len() ==> #[trigger] bytes[p] == le_digit(ws[p / 8] as nat, (p % 8) as nat)
}

/// `bytes` holds the blocks `bs`, one after the other.
pub open spec fn encodes_blocks(bytes: Seq<u8>, bs: Seq<Block>) -> bool {
    &&& bytes.len() == BLOCK_BYTES * bs.len()
    &&& forall|p: int|
        0 <= p < bytes.len() ==> #[trigger] bytes[p] == le_digit(
            bs[p / 448][(p % 448) / 32][(p % 32) / 2] as nat,
            (p % 2) as nat,
        )
}

proof fn lemma_pow256_facts(n: nat)
    ensures
        pow256(n) > 0,
        n <= 8 ==> pow256(n) <= pow256(8),
        pow256(2) == 0x1_0000,
        pow256(7) == 0x100_0000_0000_0000,
        pow256(8) == 0x1_0000_0000_0000_0000,
    decreases n,
{
    reveal_with_fuel(pow256, 9);
    if n > 0 {
        lemma_pow256_facts((n - 1) as nat);
        if n <= 8 {
            assert(pow256(n) <= pow256(8)) by {
                reveal_with_fuel(pow256, 9);
                assert(n == 1 || n == 2 || n == 3 || n == 4 || n == 5 || n == 6 || n == 7 || n == 8);
            }
        }
    }
}

/// A little-endian number of `s.len()` bytes is below `256^len`.
proof fn lemma_le_value_bound(s: Seq<u8>)
    ensures
        le_value(s) < pow256(s.len()),
    decreases s.len(),
{
    if s.len() > 0 {
        lemma_le_value_bound(s.drop_first());
        assert(pow256(s.len()) == 256 * pow256((s.len() - 1) as nat));
    }
}

/// Reading back the little-endian digits of `x` gives `x`.
pub proof fn lemma_le_value_of_digits(s: Seq<u8>, x: nat)
    requires
        x < pow256(s.len()),
        forall|k: int| 0 <= k < s.len() ==> #[trigger] s[k] == le_digit(x, k as nat),
    ensures
        le_value(s) == x,
    decreases s.len(),
{
    if s.len() == 0 {
    } else {
        let t = s.drop_first();
        let y = x / 256;
        assert(pow256(s.len()) == 256 * pow256(t.len()));
        assert forall|k: int| 0 <= k < t.len() implies #[trigger] t[k] == le_digit(y, k as nat) by {
            lemma_pow256_facts(k as nat);
            lemma_div_denominator(x as int, 256, pow256(k as nat) as int);
            assert(s[k + 1] == le_digit(x, (k + 1) as nat));
            assert(pow256((k + 1) as nat) == 256 * pow256(k as nat));
        }
        assert(y < pow256(t.len())) by (nonlinear_arith)
            requires
                x < 256 * pow256(t.len()),
                y == x / 256,
        ;
        lemma_le_value_of_digits(t, y);
        assert(pow256(0) == 1);
        assert(s[0] == le_digit(x, 0));
        assert(s[0] as nat == x % 256);
        assert(x == 256 * y + x % 256);
    }
}

/// A decoded `u16` is its first byte plus 256 times its second.
pub proof fn lemma_u16_little_endian(bytes: Seq<u8>, off: int)
    requires
        0 <= off,
        off + 2 <= bytes.len(),
    ensures
        u16_at(bytes, off) == bytes[off] + 256 * bytes[off + 1],
{
    let s2 = bytes.subrange(off, off + 2);
    assert(s2.drop_first().drop_first().len() == 0);
    assert(le_value(s2) == s2[0] + 256 * le_value(s2.drop_first()));
    assert(le_value(s2.drop_first()) == s2[1] + 256 * le_value(s2.drop_first().drop_first()));
}

/// A decoded `u64` weighs its `k`-th byte by `256^k`.
pub proof fn lemma_u64_little_endian(bytes: Seq<u8>, off: int)
    requires
        0 <= off,
        off + 8 <= bytes.len(),
    ensures
        u64_at(bytes, off) == bytes[off] + 0x100 * bytes[off + 1] + 0x1_0000 * bytes[off + 2]
            + 0x100_0000 * bytes[off + 3] + 0x1_0000_0000 * bytes[off + 4] + 0x100_0000_0000
            * bytes[off + 5] + 0x1_0000_0000_0000 * bytes[off + 6] + 0x100_0000_0000_0000 * bytes[off
            + 7],
{
    let s8 = bytes.subrange(off, off + 8);
    let t1 = s8.drop_first();
    let t2 = t1.drop_first();
    let t3 = t2.drop_first();
    let t4 = t3.drop_first();
    let t5 = t4.drop_first();
    let t6 = t5.drop_first();
    let t7 = t6.drop_first();
    let t8 = t7.drop_first();
    assert(t8.len() == 0);
    assert(le_value(t7) == t7[0] + 256 * le_value(t8));
    assert(le_value(t6) == t6[0] + 256 * le_value(t7));
    assert(le_value(t5) == t5[0] + 256 * le_value(t6));
    assert(le_value(t4) == t4[0] + 256 * le_value(t5));
    assert(le_value(t3) == t3[0] + 256 * le_value(t4));
    assert(le_value(t2) == t2[0] + 256 * le_value(t3));
    assert(le_value(t1) == t1[0] + 256 * le_value(t2));
    assert(le_value(s8) == s8[0] + 256 * le_value(t1));
}

/// Reads `width` bytes starting at `start` as a little-endian number.
fn read_le(bytes: &[u8], start: usize, width: usize) -> (x: u64)
    requires
        width <= 8,
        start + width <= bytes@.len(),
    ensures
        x == le_value(bytes@.subrange(start as int, start + width)),
    decreases width,
{
    let len = bytes.len();
    if width == 0 {
        0
    } else {
        assert(start + 1 <= len);
        let rest = read_le(bytes, start + 1, width - 1);
        let ghost s = bytes@.subrange(start as int, start + width);
        assert(s.drop_first() =~= bytes@.subrange(start + 1, start + width));
        proof {
            lemma_le_value_bound(bytes@.subrange(start + 1, start + width));
            lemma_pow256_facts((width - 1) as nat);
            lemma_pow256_facts(7);
            if width - 1 < 7 {
                assert(pow256((width - 1) as nat) <= pow256(7)) by {
                    reveal_with_fuel(pow256, 8);
                    assert(width - 1 == 0 || width - 1 == 1 || width - 1 == 2 || width - 1 == 3
                        || width - 1 == 4 || width - 1 == 5 || width - 1 == 6);
                }
            }
        }
        bytes[start] as u64 + 256 * rest
    }
}

/// Appends the `width` little-endian bytes of `x` to `out`.
fn push_le(out: &mut Vec<u8>, x: u64, width: usize)
    requires
        width <= 8,
    ensures
        final(out)@.len() == old(out)@.len() + width,
        forall|k: int| 0 <= k < old(out)@.len() ==> final(out)@[k] == old(out)@[k],
        forall|k: int|
            0 <= k < width ==> #[trigger] final(out)@[old(out)@.len() + k] == le_digit(
                x as nat,
                k as nat,
            ),
{
    let ghost start = out@;
    assert(pow256(0) == 1);
    let mut v: u64 = x;
    let mut k: usize = 0;
    while k < width
        invariant
            k <= width,
            width <= 8,
            out@.len() == start.len() + k,
            forall|j: int| 0 <= j < start.len() ==> out@[j] == start[j],
            forall|j: int| 0 <= j < k ==> #[trigger] out@[start.len() + j] == le_digit(x as nat, j as nat),
            v == x as nat / pow256(k as nat),
        decreases width - k,
    {
        out.push((v % 256) as u8);
        proof {
            lemma_pow256_facts(k as nat);
            lemma_div_denominator(x as int, pow256(k as nat) as int, 256);
            assert(pow256((k + 1) as nat) == 256 * pow256(k as nat));
            assert(pow256(k as nat) * 256 == 256 * pow256(k as nat)) by (nonlinear_arith);
        }
        v = v / 256;
        k = k + 1;
    }
}

/// Decodes consecutive vectors; a trailing partial vector is ignored.
pub fn decode_vectors(bytes: &[u8]) -> (vs: Vec<Vector>)
    ensures
        decodes_vectors(bytes@, vs@),
{
    let len = bytes.len();
    let n = len / VECTOR_BYTES;
    assert(28 * n <= len);
    let mut vs: Vec<Vector> = Vec::new();
    let mut i: usize = 0;
    while i < n
        invariant
            i <= n,
            n == bytes@.len() / 28,
            28 * n <= bytes@.len(),
            len == bytes@.len(),
            vs@.len() == i,
            forall|a: int, d: int|
                0 <= a < i && 0 <= d < DIMENSIONS ==> #[trigger] vs@[a][d] == u16_at(
                    bytes@,
                    28 * a + 2 * d,
                ),
        decreases n - i,
    {
        let mut v: Vector = [0u16; 14];
        let base = i * VECTOR_BYTES;
        let mut d: usize = 0;
        while d < DIMENSIONS
            invariant
                d <= DIMENSIONS,
                i < n,
                n == bytes@.len() / 28,
                28 * n <= bytes@.len(),
                len == bytes@.len(),
                base == 28 * i,
                forall|e: int| 0 <= e < d ==> #[trigger] v@[e] == u16_at(bytes@, base + 2 * e),
            decreases DIMENSIONS - d,
        {
            let x = read_le(bytes, base + 2 * d, 2);
            proof {
                lemma_le_value_bound(bytes@.subrange(base + 2 * d, base + 2 * d + 2));
                lemma_pow256_facts(2);
            }
            v[d] = x as u16;
            d = d + 1;
        }
        vs.push(v);
        i = i + 1;
    }
    vs
}

/// Decodes consecutive label words; a trailing partial word is ignored.
pub fn decode_words(bytes: &[u8]) -> (ws: Vec<u64>)
    ensures
        decodes_words(bytes@, ws@),
{
    let len = bytes.len();
    let n = len / WORD_BYTES;
    assert(8 * n <= len);
    let mut ws: Vec<u64> = Vec::new();
    let mut i: usize = 0;
    while i < n
        invariant
            i <= n,
            n == bytes@.len() / 8,
            8 * n <= bytes@.len(),
            len == bytes@.len(),
            ws@.len() == i,
            forall|w: int| 0 <= w < i ==> #[trigger] ws@[w] == u64_at(bytes@, 8 * w),
        decreases n - i,
    {
        let x = read_le(bytes, i * WORD_BYTES, 8);
        ws.push(x);
        i = i + 1;
    }
    ws
}

/// Decodes consecutive blocks; a trailing partial block is ignored.
pub fn decode_blocks(bytes: &[u8]) -> (bs: Vec<Block>)
    ensures
        decodes_blocks(bytes@, bs@),
{
    let len = bytes.len();
    let n = len / BLOCK_BYTES;
    assert(448 * n <= len);
    let mut bs: Vec<Block> = Vec::new();
    let mut i: usize = 0;
    while i < n
        invariant
            i <= n,
            n == bytes@.len() / 448,
            448 * n <= bytes@.len(),
            len == bytes@.len(),
            bs@.len() == i,
            forall|b: int, d: int, l: int|
                0 <= b < i && 0 <= d < DIMENSIONS && 0 <= l < LANES ==> #[trigger] bs@[b][d][l]
                    == u16_at(bytes@, 448 * b + 32 * d + 2 * l),
        decreases n - i,
    {
        let mut block: Block = [[0u16; 16]; 14];
        let base = i * BLOCK_BYTES;
        let mut d: usize = 0;
        while d < DIMENSIONS
            invariant
                d <= DIMENSIONS,
                i < n,
                n == bytes@.len() / 448,
                448 * n <= bytes@.len(),
                len == bytes@.len(),
                base == 448 * i,
                forall|e: int, l: int|
                    0 <= e < d && 0 <= l < LANES ==> #[trigger] block@[e][l] == u16_at(
                        bytes@,
                        base + 32 * e + 2 * l,
                    ),
            decreases DIMENSIONS - d,
        {
            let mut row: [u16; LANES] = [0u16; 16];
            let mut l: usize = 0;
            while l < LANES
                invariant
                    l <= LANES,
                    d < DIMENSIONS,
                    i < n,
                    n == bytes@.len() / 448,
                    448 * n <= bytes@.len(),
                    len == bytes@.len(),
                    base == 448 * i,
                    forall|m: int| 0 <= m < l ==> #[trigger] row@[m] == u16_at(
                        bytes@,
                        base + 32 * d + 2 * m,
                    ),
                decreases LANES - l,
            {
                let x = read_le(bytes, base + 32 * d + 2 * l, 2);
                proof {
                    lemma_le_value_bound(bytes@.subrange(base + 32 * d + 2 * l, base + 32 * d + 2 * l + 2));
                    lemma_pow256_facts(2);
                }
                row[l] = x as u16;
                l = l + 1;
            }
            block[d] = row;
            d = d + 1;
        }
        bs.push(block);
        i = i + 1;
    }
    bs
}

/// `bs` holds the vectors `vs` interleaved `LANES` to a block: lane `l` of
/// block `b` is vector `LANES * b + l`, and the lanes past the last vector are
/// zero.
pub open spec fn interleaves(bs: Seq<Block>, vs: Seq<Vector>) -> bool {
    &&& bs.len() == (vs.len() + 15) / 16
    &&& forall|b: int, d: int, l: int|
        0 <= b < bs.len() && 0 <= d < DIMENSIONS && 0 <= l < LANES ==> #[trigger] bs[b][d][l] == if 16
            * b + l < vs.len() {
            vs[16 * b + l][d]
        } else {
            0u16
        }
}

proof fn lemma_split_position(p: int, q: int, r: int, w: int, a: int, b: int)
    requires
        0 <= a,
        0 <= b < q / w,
        w == 2 || w == 8 || w == 32,
        q == 28 || q == 448 || q == 8 || q == 32,
        q % w == 0,
        0 <= r < w,
        p == q * a + w * b + r,
    ensures
        p / q == a,
        p % q == w * b + r,
        (p % q) / w == b,
        p % w == r,
{
    assert(p / q == a && p % q == w * b + r && (p % q) / w == b && p % w == r) by (nonlinear_arith)
        requires
            0 <= a,
            0 <= b < q / w,
            w == 2 || w == 8 || w == 32,
            q == 28 || q == 448 || q == 8 || q == 32,
            q % w == 0,
            0 <= r < w,
            p == q * a + w * b + r,
    ;
}

/// Encodes the vectors one after the other.
pub fn encode_vectors(vs: &[Vector]) -> (bytes: Vec<u8>)
    ensures
        encodes_vectors(bytes@, vs@),
{
    let mut out: Vec<u8> = Vec::new();
    let mut i: usize = 0;
    while i < vs.len()
        invariant
            i <= vs@.len(),
            out@.len() == 28 * i,
            forall|p: int|
                0 <= p < out@.len() ==> #[trigger] out@[p] == le_digit(
                    vs@[p / 28][(p % 28) / 2] as nat,
                    (p % 2) as nat,
                ),
        decreases vs@.len() - i,
    {
        let v = vs[i];
        let mut d: usize = 0;
        while d < DIMENSIONS
            invariant
                d <= DIMENSIONS,
                i < vs@.len(),
                v == vs@[i as int],
                out@.len() == 28 * i + 2 * d,
                forall|p: int|
                    0 <= p < out@.len() ==> #[trigger] out@[p] == le_digit(
                        vs@[p / 28][(p % 28) / 2] as nat,
                        (p % 2) as nat,
                    ),
            decreases DIMENSIONS - d,
        {
            let ghost before = out@;
            push_le(&mut out, v[d] as u64, 2);
            assert forall|p: int| 0 <= p < out@.len() implies #[trigger] out@[p] == le_digit(
                vs@[p / 28][(p % 28) / 2] as nat,
                (p % 2) as nat,
            ) by {
                if p >= before.len() {
                    let k = p - before.len();
                    assert(out@[before.len() + k] == le_digit(v[d as int] as nat, k as nat));
                    lemma_split_position(p, 28, k, 2, i as int, d as int);
                } else {
                    assert(out@[p] == before[p]);
                }
            }
            d = d + 1;
        }
        i = i + 1;
    }
    out
}

/// Encodes the label words one after the other.
pub fn encode_words(ws: &[u64]) -> (bytes: Vec<u8>)
    ensures
        encodes_words(bytes@, ws@),
{
    let mut out: Vec<u8> = Vec::new();
    let mut i: usize = 0;
    while i < ws.len()
        invariant
            i <= ws@.len(),
            out@.len() == 8 * i,
            forall|p: int|
                0 <= p < out@.len() ==> #[trigger] out@[p] == le_digit(
                    ws@[p / 8] as nat,
                    (p % 8) as nat,
                ),
        decreases ws@.len() - i,
    {
        let ghost before = out@;
        push_le(&mut out, ws[i], 8);
        assert forall|p: int| 0 <= p < out@.len() implies #[trigger] out@[p] == le_digit(
            ws@[p / 8] as nat,
            (p % 8) as nat,
        ) by {
            if p >= before.len() {
                let k = p - before.len();
                assert(out@[before.len() + k] == le_digit(ws@[i as int] as nat, k as nat));
                lemma_split_position(p, 8, k, 8, i as int, 0);
            } else {
                assert(out@[p] == before[p]);
            }
        }
        i = i + 1;
    }
    out
}

/// Encodes the blocks one after the other.
pub fn encode_blocks(bs: &[Block]) -> (bytes: Vec<u8>)
    ensures
        encodes_blocks(bytes@, bs@),
{
    let mut out: Vec<u8> = Vec::new();
    let mut b: usize = 0;
    while b < bs.len()
        invariant
            b <= bs@.len(),
            out@.len() == 448 * b,
            forall|p: int|
                0 <= p < out@.len() ==> #[trigger] out@[p] == le_digit(
                    bs@[p / 448][(p % 448) / 32][(p % 32) / 2] as nat,
                    (p % 2) as nat,
                ),
        decreases bs@.len() - b,
    {
        let block = bs[b];
        let mut d: usize = 0;
        while d < DIMENSIONS
            invariant
                d <= DIMENSIONS,
                b < bs@.len(),
                block == bs@[b as int],
                out@.len() == 448 * b + 32 * d,
                forall|p: int|
                    0 <= p < out@.len() ==> #[trigger] out@[p] == le_digit(
                        bs@[p / 448][(p % 448) / 32][(p % 32) / 2] as nat,
                        (p % 2) as nat,
                    ),
            decreases DIMENSIONS - d,
        {
            let row = block[d];
            let mut l: usize = 0;
            while l < LANES
                invariant
                    l <= LANES,
                    d < DIMENSIONS,
                    b < bs@.len(),
                    block == bs@[b as int],
                    row == block@[d as int],
                    out@.len() == 448 * b + 32 * d + 2 * l,
                    forall|p: int|
                        0 <= p < out@.len() ==> #[trigger] out@[p] == le_digit(
                            bs@[p / 448][(p % 448) / 32][(p % 32) / 2] as nat,
                            (p % 2) as nat,
                        ),
                decreases LANES - l,
            {
                let ghost before = out@;
                push_le(&mut out, row[l] as u64, 2);
                assert forall|p: int| 0 <= p < out@.len() implies #[trigger] out@[p] == le_digit(
                    bs@[p / 448][(p % 448) / 32][(p % 32) / 2] as nat,
                    (p % 2) as nat,
                ) by {
                    if p >= before.len() {
                        let k = p - before.len();
                        assert(out@[before.len() + k] == le_digit(row[l as int] as nat, k as nat));
                        lemma_split_position(p, 448, 2 * l + k, 32, b as int, d as int);
                        lemma_split_position(p % 448, 32, k, 2, d as int, l as int);
                        assert((p % 32) == (p % 448) % 32) by (nonlinear_arith)
                            requires
                                p >= 0,
                        ;
                    } else {
                        assert(out@[p] == before[p]);
                    }
                }
                l = l + 1;
            }
            d = d + 1;
        }
        b = b + 1;
    }
    out
}

/// Decoding the encoding of vectors gives the vectors back.
pub proof fn lemma_vectors_round_trip(bytes: Seq<u8>, vs: Seq<Vector>, decoded: Seq<Vector>)
    requires
        encodes_vectors(bytes, vs),
        decodes_vectors(bytes, decoded),
    ensures
        decoded == vs,
{
    assert forall|i: int, d: int| 0 <= i < vs.len() && 0 <= d < DIMENSIONS implies u16_at(
        bytes,
        28 * i + 2 * d,
    ) == #[trigger] vs[i][d] by {
        let s = bytes.subrange(28 * i + 2 * d, 28 * i + 2 * d + 2);
        assert forall|k: int| 0 <= k < s.len() implies #[trigger] s[k] == le_digit(
            vs[i][d] as nat,
            k as nat,
        ) by {
            lemma_split_position(28 * i + 2 * d + k, 28, k, 2, i, d);
            assert(s[k] == bytes[28 * i + 2 * d + k]);
        }
        lemma_pow256_facts(2);
        lemma_le_value_of_digits(s, vs[i][d] as nat);
    }
    assert forall|i: int| 0 <= i < vs.len() implies #[trigger] decoded[i] == vs[i] by {
        assert(decoded[i] =~= vs[i]);
    }
    assert(decoded =~= vs);
}

/// Decoding the encoding of label words gives the words back.
pub proof fn lemma_words_round_trip(bytes: Seq<u8>, ws: Seq<u64>, decoded: Seq<u64>)
    requires
        encodes_words(bytes, ws),
        decodes_words(bytes, decoded),
    ensures
        decoded == ws,
{
    assert forall|w: int| 0 <= w < ws.len() implies u64_at(bytes, 8 * w) == #[trigger] ws[w] by {
        let s = bytes.subrange(8 * w, 8 * w + 8);
        assert forall|k: int| 0 <= k < s.len() implies #[trigger] s[k] == le_digit(
            ws[w] as nat,
            k as nat,
        ) by {
            lemma_split_position(8 * w + k, 8, k, 8, w, 0);
            assert(s[k] == bytes[8 * w + k]);
        }
        lemma_pow256_facts(8);
        lemma_le_value_of_digits(s, ws[w] as nat);
    }
    assert(decoded =~= ws);
}

/// Decoding the encoding of blocks gives the blocks back.
pub proof fn lemma_blocks_round_trip(bytes: Seq<u8>, bs: Seq<Block>, decoded: Seq<Block>)
    requires
        encodes_blocks(bytes, bs),
        decodes_blocks(bytes, decoded),
    ensures
        decoded == bs,
{
    assert forall|b: int, d: int, l: int|
        0 <= b < bs.len() && 0 <= d < DIMENSIONS && 0 <= l < LANES implies u16_at(
        bytes,
        448 * b + 32 * d + 2 * l,
    ) == #[trigger] bs[b][d][l] by {
        let off = 448 * b + 32 * d + 2 * l;
        let s = bytes.subrange(off, off + 2);
        assert forall|k: int| 0 <= k < s.len() implies #[trigger] s[k] == le_digit(
            bs[b][d][l] as nat,
            k as nat,
        ) by {
            let p = off + k;
            lemma_split_position(p, 448, 2 * l + k, 32, b, d);
            lemma_split_position(p % 448, 32, k, 2, d, l);
            assert((p % 32) == (p % 448) % 32) by (nonlinear_arith)
                requires
                    p >= 0,
            ;
            assert(s[k] == bytes[p]);
        }
        lemma_pow256_facts(2);
        lemma_le_value_of_digits(s, bs[b][d][l] as nat);
    }
    assert forall|b: int| 0 <= b < bs.len() implies #[trigger] decoded[b] == bs[b] by {
        assert forall|d: int| 0 <= d < DIMENSIONS implies #[trigger] decoded[b][d] == bs[b][d] by {
            assert(decoded[b][d] =~= bs[b][d]);
        }
        assert(decoded[b] =~= bs[b]);
    }
    assert(decoded =~= bs);
}

/// Interleaves the vectors `LANES` to a block, padding the last block with
/// zero lanes.
pub fn interleave(vs: &[Vector]) -> (bs: Vec<Block>)
    requires
        vs@.len() + 15 <= usize::MAX,
    ensures
        interleaves(bs@, vs@),
{
    let n = vs.len();
    let nb = (n + 15) / 16;
    let mut bs: Vec<Block> = Vec::new();
    let mut b: usize = 0;
    while b < nb
        invariant
            b <= nb,
            n == vs@.len(),
            nb == (n + 15) / 16,
            bs@.len() == b,
            forall|c: int, d: int, l: int|
                0 <= c < b && 0 <= d < DIMENSIONS && 0 <= l < LANES ==> #[trigger] bs@[c][d][l]
                    == if 16 * c + l < n {
                    vs@[16 * c + l][d]
                } else {
                    0u16
                },
        decreases nb - b,
    {
        let mut block: Block = [[0u16; 16]; 14];
        let mut d: usize = 0;
        while d < DIMENSIONS
            invariant
                d <= DIMENSIONS,
                b < nb,
                n == vs@.len(),
                nb == (n + 15) / 16,
                forall|e: int, l: int|
                    0 <= e < d && 0 <= l < LANES ==> #[trigger] block@[e][l] == if 16 * b + l < n {
                        vs@[16 * b + l][e]
                    } else {
                        0u16
                    },
            decreases DIMENSIONS - d,
        {
            let mut row: [u16; LANES] = [0u16; 16];
            let mut l: usize = 0;
            while l < LANES
                invariant
                    l <= LANES,
                    d < DIMENSIONS,
                    b < nb,
                    n == vs@.len(),
                    nb == (n + 15) / 16,
                    forall|m: int| 0 <= m < l ==> #[trigger] row@[m] == if 16 * b + m < n {
                        vs@[16 * b + m][d as int]
                    } else {
                        0u16
                    },
                decreases LANES - l,
            {
                let idx = 16 * b + l;
                if idx < n {
                    row[l] = vs[idx][d];
                } else {
                    row[l] = 0;
                }
                l = l + 1;
            }
            block[d] = row;
            d = d + 1;
        }
        bs.push(block);
        b = b + 1;
    }
    bs
}

} // verus!
