//! Reference set in interleaved blocks, searched over a window of blocks
//! chosen by hashing the query.
//!
//! The window holds `BLOCK_SAMPLE` consecutive blocks; its first block is
//! drawn from the query's hash so that the window always lies within the
//! first `TOTAL_AMOUNT_BLOCKS` blocks.

use vstd::prelude::*;
use vstd::wrapping::u64_specs;
use crate::codec::{decode_blocks, decode_words, decodes_blocks, decodes_words, Block};
use crate::distance::{distances_16, lane_distance};
use crate::knn::{
    distinct_indices, holds_nearest, insert_best, lemma_scan_keeps_nearest, lemma_scan_step,
    nearest_first, offer, scan, Neighbor, Neighbors, K,
};
use crate::labels::{count_frauds, covers, fraud_votes, labels_cover};
use crate::reference_simd::lemma_lane_position;
use crate::{Vector, DIMENSIONS, LANES};

verus! {

/// Number of reference vectors the sampling is laid out for.
pub const TOTAL_AMOUNT_VECTORS: u64 = 3_000_000;

/// Number of vectors searched per query.
pub const VECTOR_SAMPLE: u64 = 32_768;

/// Number of blocks searched per query: `VECTOR_SAMPLE / LANES`.
pub const BLOCK_SAMPLE: u64 = VECTOR_SAMPLE / 16;

/// Number of blocks the reference vectors fill: `TOTAL_AMOUNT_VECTORS / LANES`.
pub const TOTAL_AMOUNT_BLOCKS: u64 = TOTAL_AMOUNT_VECTORS / 16;

/// Number of possible first blocks of a window:
/// `TOTAL_AMOUNT_BLOCKS - BLOCK_SAMPLE + 1`.
pub const BLOCK_CHOICES_O: usize = 185_453;

/// Starting state of the query hash.
pub const HASH_SEED: u64 = 0x9E37_79B9_7F4A_7C15;

/// Multiplier of the query hash.
pub const HASH_MULTIPLIER: u64 = 0x94D0_49BB_1331_11EB;

/// `x` rotated left by 27 bits.
pub open spec fn rotate_left_27(x: u64) -> u64 {
    (x << 27u64) | (x >> 37u64)
}

/// One hash round: mix coordinate `v` at position `i` into the state `h`.
pub open spec fn hash_round(h: u64, v: u16, i: int) -> u64 {
    let x = h ^ u64_specs::wrapping_add(v as u64, (i as u64) << 32u64);
    u64_specs::wrapping_mul(rotate_left_27(x), HASH_MULTIPLIER)
}

/// The hash state after the first `n` coordinates of `t`.
pub open spec fn hash_prefix(t: Seq<u16>, n: int) -> u64
    decreases n,
{
    if n <= 0 {
        HASH_SEED
    } else {
        hash_round(hash_prefix(t, n - 1), t[n - 1], n - 1)
    }
}

/// The hash of a query: every coordinate mixed in, then the high bits
/// folded down.
pub open spec fn query_hash(t: Seq<u16>) -> u64 {
    let h = hash_prefix(t, DIMENSIONS as int);
    h ^ (h >> 33u64)
}

/// `rand * n / 2^64`: maps a uniform 64-bit value onto `0..n`.
pub open spec fn scaled_bound(rand: u64, n: usize) -> int {
    (rand as int * n as int) / 0x1_0000_0000_0000_0000
}

/// The first block of the window searched for the query `t`.
pub open spec fn window_start(t: Seq<u16>) -> int {
    scaled_bound(query_hash(t), BLOCK_CHOICES_O)
}

/// Labelled reference vectors in blocks: vector `i` is lane `i % LANES` of
/// block `i / LANES` and is labelled by bit `i` of `labels`.
pub struct RandomSIMD {
    pub blocks: Vec<Block>,
    pub labels: Vec<u64>,
}

impl RandomSIMD {
    /// The candidates offered for the query `t`, in index order: each vector
    /// of the window's blocks, with its distance to `t` modulo `2^32`.
    pub open spec fn candidates(&self, t: Vector) -> Seq<Neighbor> {
        let start = window_start(t@);
        Seq::new(
            (BLOCK_SAMPLE * 16) as nat,
            |k: int|
                (
                    lane_distance(t@, self.blocks@[start + k / 16], k % 16) as u64,
                    (16 * start + k) as usize,
                ),
        )
    }

    /// Builds the reference set from its encoded blocks and label words.
    pub fn new(vector_bytes: &[u8], label_bytes: &[u8]) -> (r: Self)
        ensures
            decodes_blocks(vector_bytes@, r.blocks@),
            decodes_words(label_bytes@, r.labels@),
    {
        let blocks = decode_blocks(vector_bytes);
        let labels = decode_words(label_bytes);
        RandomSIMD { blocks, labels }
    }

    /// Offers the candidate `(distance, idx)` to the nearest list.
    pub fn insert_best(best: &mut Neighbors, distance: u64, idx: usize)
        ensures
            final(best)@ == offer(old(best)@, distance, idx),
    {
        insert_best(best, distance, idx);
    }

    /// Maps the 64-bit value `rand` onto `0..n` by the high half of `rand * n`.
    pub fn fast_bound(rand: u64, n: usize) -> (r: usize)
        ensures
            r == scaled_bound(rand, n),
            n > 0 ==> r < n,
            n == 0 ==> r == 0,
    {
        assert(rand as int * n as int <= 0xffff_ffff_ffff_ffff * 0xffff_ffff_ffff_ffff) by (nonlinear_arith)
            requires
                rand <= 0xffff_ffff_ffff_ffff,
                n <= 0xffff_ffff_ffff_ffff,
        ;
        let prod: u128 = (rand as u128) * (n as u128);
        let high = prod >> 64u32;
        assert(high == prod / 0x1_0000_0000_0000_0000) by (bit_vector)
            requires
                high == prod >> 64u32,
        ;
        assert(prod / 0x1_0000_0000_0000_0000 <= n && (n > 0 ==> prod / 0x1_0000_0000_0000_0000 < n)) by (nonlinear_arith)
            requires
                prod == rand as int * n as int,
                0 <= rand < 0x1_0000_0000_0000_0000,
                0 <= n,
        ;
        high as usize
    }

    /// The first block of the window searched for `transaction`.
    pub fn sample_start_block(transaction: &Vector) -> (start: usize)
        ensures
            start == window_start(transaction@),
            start < BLOCK_CHOICES_O,
            start + BLOCK_SAMPLE <= TOTAL_AMOUNT_BLOCKS,
    {
        let mut h: u64 = HASH_SEED;
        let mut i: usize = 0;
        while i < DIMENSIONS
            invariant
                i <= DIMENSIONS,
                h == hash_prefix(transaction@, i as int),
            decreases DIMENSIONS - i,
        {
            let v = transaction[i];
            h = h ^ (v as u64).wrapping_add((i as u64) << 32u64);
            h = (h << 27u64) | (h >> 37u64);
            h = h.wrapping_mul(HASH_MULTIPLIER);
            i = i + 1;
        }
        h = h ^ (h >> 33u64);
        Self::fast_bound(h, BLOCK_CHOICES_O)
    }

    /// The `K` vectors of the query's window nearest to `transaction`,
    /// nearest first, found by offering every vector of the window in order.
    pub fn nearest(&self, transaction: &Vector) -> (best: Neighbors)
        requires
            window_start(transaction@) + BLOCK_SAMPLE <= self.blocks@.len(),
        ensures
            best@ == scan(self.candidates(*transaction)),
    {
        let ghost cands = self.candidates(*transaction);
        let mut best: Neighbors = [(u64::MAX, 0usize); 5];
        assert(cands.take(0) =~= Seq::<Neighbor>::empty());
        assert(best@ =~= scan(cands.take(0)));
        let start_block = Self::sample_start_block(transaction);
        let window = BLOCK_SAMPLE as usize;
        let end_block = start_block + window;
        let mut offset: usize = 0;
        while offset < window
            invariant
                offset <= window,
                window == BLOCK_SAMPLE,
                start_block == window_start(transaction@),
                start_block < BLOCK_CHOICES_O,
                end_block == start_block + window,
                end_block <= self.blocks@.len(),
                cands == self.candidates(*transaction),
                best@ == scan(cands.take(16 * offset)),
            decreases window - offset,
        {
            let block_idx = start_block + offset;
            let distances = distances_16(transaction, &self.blocks[block_idx]);
            let block_start = block_idx * LANES;
            let mut i: usize = 0;
            while i < LANES
                invariant
                    i <= LANES,
                    offset < window,
                    window == BLOCK_SAMPLE,
                    start_block == window_start(transaction@),
                    start_block < BLOCK_CHOICES_O,
                    block_idx == start_block + offset,
                    block_start == 16 * block_idx,
                    cands == self.candidates(*transaction),
                    forall|m: int| 0 <= m < LANES ==> #[trigger] distances@[m] == lane_distance(
                        transaction@,
                        self.blocks@[block_idx as int],
                        m,
                    ),
                    best@ == scan(cands.take(16 * offset + i)),
                decreases LANES - i,
            {
                let idx = block_start + i;
                let distance = distances[i] as u64;
                proof {
                    lemma_lane_position(offset as int, i as int);
                    lemma_scan_step(cands, 16 * offset + i);
                }
                Self::insert_best(&mut best, distance, idx);
                i = i + 1;
            }
            offset = offset + 1;
        }
        assert(cands.take(16 * window as int) =~= cands);
        best
    }

    /// Number of fraudulent labels among the `K` nearest vectors of the
    /// query's window; the fraud score is this count over `K`.
    pub fn fraud_count(&self, transaction: &Vector) -> (count: usize)
        requires
            window_start(transaction@) + BLOCK_SAMPLE <= self.blocks@.len(),
            labels_cover(self.labels@, scan(self.candidates(*transaction))),
        ensures
            count == fraud_votes(self.labels@, scan(self.candidates(*transaction)), K as int),
            count <= K,
    {
        let best = self.nearest(transaction);
        count_frauds(self.labels.as_slice(), &best)
    }

    /// The fraud count of `transaction`, or `None` where the unchecked count
    /// would slice past the blocks or read past the label words.
    pub fn fraud_count_checked(&self, transaction: &Vector) -> (count: Option<usize>)
        ensures
            count is Some <==> window_start(transaction@) + BLOCK_SAMPLE <= self.blocks@.len()
                && labels_cover(self.labels@, scan(self.candidates(*transaction))),
            count matches Some(c) ==> c == fraud_votes(
                self.labels@,
                scan(self.candidates(*transaction)),
                K as int,
            ),
    {
        let start = Self::sample_start_block(transaction);
        if start + BLOCK_SAMPLE as usize > self.blocks.len() {
            return None;
        }
        let best = self.nearest(transaction);
        if !covers(self.labels.as_slice(), &best) {
            return None;
        }
        Some(count_frauds(self.labels.as_slice(), &best))
    }
}

/// The list `nearest` returns for a query holds the nearest vectors of the
/// query's window.
pub proof fn lemma_window_nearest(r: RandomSIMD, t: Vector)
    ensures
        holds_nearest(r.candidates(t), scan(r.candidates(t))),
{
    let h = query_hash(t@);
    assert((h as int * BLOCK_CHOICES_O as int) / 0x1_0000_0000_0000_0000 < BLOCK_CHOICES_O) by (nonlinear_arith)
        requires
            0 <= h < 0x1_0000_0000_0000_0000,
    ;
    let c = r.candidates(t);
    assert(distinct_indices(c));
    lemma_scan_keeps_nearest(c);
}

/// Labels with a word for every vector the blocks hold cover every entry that
/// the search for a query whose window lies within the blocks returns.
pub proof fn lemma_labels_cover_window_nearest(r: RandomSIMD, t: Vector)
    requires
        window_start(t@) + BLOCK_SAMPLE <= r.blocks@.len(),
        64 * r.labels@.len() >= 16 * r.blocks@.len(),
    ensures
        labels_cover(r.labels@, scan(r.candidates(t))),
{
    let c = r.candidates(t);
    let s = scan(c);
    let start = window_start(t@);
    lemma_window_nearest(r, t);
    assert(0 <= start) by (nonlinear_arith)
        requires
            start == (query_hash(t@) as int * BLOCK_CHOICES_O as int) / 0x1_0000_0000_0000_0000,
    ;
    assert forall|k: int| 0 <= k < s.len() implies #[trigger] s[k].1 / 64 < r.labels@.len() by {
        if s[k] != (u64::MAX, 0usize) {
            let j = choose|j: int| 0 <= j < c.len() && c[j] == s[k];
            assert(s[k].1 == 16 * start + j);
        }
    }
}

/// The vector in lane `l` of block `b`, as a candidate for the query `t`:
/// its distance to `t` modulo `2^32`, and its index `16 * b + l`.
pub open spec fn lane_candidate(r: RandomSIMD, t: Vector, b: int, l: int) -> Neighbor {
    (lane_distance(t@, r.blocks@[b], l) as u64, (16 * b + l) as usize)
}

/// The search for a query covers every vector of its window, the
/// `VECTOR_SAMPLE / 16` blocks from `window_start(t)` on, and nothing else:
/// the list it returns holds `K` entries ordered nearest first; every vector
/// of the window is in it or no nearer than its last entry; and every entry is
/// a vector of the window, with its distance, or the unfilled `(u64::MAX, 0)`.
pub proof fn lemma_search_covers_window(r: RandomSIMD, t: Vector)
    ensures
        ({
            let start = window_start(t@);
            let s = scan(r.candidates(t));
            &&& s.len() == K
            &&& nearest_first(s)
            &&& forall|b: int, l: int|
                start <= b < start + VECTOR_SAMPLE / 16 && 0 <= l < 16 ==> s.contains(
                    #[trigger] lane_candidate(r, t, b, l),
                ) || lane_candidate(r, t, b, l).0 >= s[K - 1].0
            &&& forall|k: int|
                0 <= k < K ==> #[trigger] s[k] == (u64::MAX, 0usize) || (16 * start <= s[k].1 < 16 * (
                start + VECTOR_SAMPLE / 16) && s[k] == lane_candidate(r, t, s[k].1 as int / 16, s[k].1 as int % 16))
        }),
{
    let h = query_hash(t@);
    let start = window_start(t@);
    assert(0 <= start < BLOCK_CHOICES_O) by (nonlinear_arith)
        requires
            0 <= h < 0x1_0000_0000_0000_0000,
            start == (h as int * BLOCK_CHOICES_O as int) / 0x1_0000_0000_0000_0000,
    ;
    let c = r.candidates(t);
    let s = scan(c);
    lemma_window_nearest(r, t);
    assert forall|b: int, l: int|
        start <= b < start + VECTOR_SAMPLE / 16 && 0 <= l < 16 implies s.contains(
        #[trigger] lane_candidate(r, t, b, l),
    ) || lane_candidate(r, t, b, l).0 >= s[K - 1].0 by {
        let j = 16 * (b - start) + l;
        lemma_lane_position(b - start, l);
        assert(c[j] == lane_candidate(r, t, b, l));
    }
    assert forall|k: int| 0 <= k < K implies #[trigger] s[k] == (u64::MAX, 0usize) || (16 * start
        <= s[k].1 < 16 * (start + VECTOR_SAMPLE / 16) && s[k] == lane_candidate(
        r,
        t,
        s[k].1 as int / 16,
        s[k].1 as int % 16,
    )) by {
        if s[k] != (u64::MAX, 0usize) {
            let j = choose|j: int| 0 <= j < c.len() && c[j] == s[k];
            lemma_lane_position(start + j / 16, j % 16);
            assert(16 * (start + j / 16) + j % 16 == 16 * start + j);
            assert(s[k].1 == 16 * start + j);
        }
    }
}

} // verus!
