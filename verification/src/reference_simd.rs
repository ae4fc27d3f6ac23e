//! Reference set stored in interleaved blocks of `LANES` vectors, searched
//! exhaustively one block at a time.

use vstd::prelude::*;
use crate::codec::{
    decode_blocks, decode_words, decodes_blocks, decodes_words, encodes_blocks, encodes_words,
    interleaves, lemma_blocks_round_trip, lemma_words_round_trip, Block,
};
use crate::distance::{distances_16, lane, lane_distance, squared_distance};
use crate::reference::Reference;
use crate::knn::{
    distinct_indices, holds_nearest, insert_best, lemma_scan_keeps_nearest, lemma_scan_step,
    nearest_first, offer, scan, Neighbor, Neighbors, K,
};
use crate::labels::{count_frauds, covers, fraud_votes, label_bit, labels_cover, packs};
use crate::{Vector, DIMENSIONS, LANES};

verus! {

/// Labelled reference vectors in blocks: vector `i` is lane `i % LANES` of
/// block `i / LANES` and is labelled by bit `i` of `labels`; only the first
/// `len` vectors are real, the lanes after them are padding.
pub struct ReferenceSIMD {
    pub blocks: Vec<Block>,
    pub labels: Vec<u64>,
    pub len: usize,
}

/// Position `16 * b + l` lies in lane `l` of block `b`.
pub proof fn lemma_lane_position(b: int, l: int)
    requires
        0 <= b,
        0 <= l < 16,
    ensures
        (16 * b + l) / 16 == b,
        (16 * b + l) % 16 == l,
{
}

impl ReferenceSIMD {
    /// Number of vectors that are searched: the real ones the blocks hold.
    pub open spec fn scanned(&self) -> int {
        if self.len <= 16 * self.blocks@.len() {
            self.len as int
        } else {
            16 * self.blocks@.len() as int
        }
    }

    /// The candidates offered for the query `t`, in index order: each searched
    /// vector's distance to `t` modulo `2^32`, with its index.
    pub open spec fn candidates(&self, t: Vector) -> Seq<Neighbor> {
        Seq::new(
            self.scanned() as nat,
            |i: int| (lane_distance(t@, self.blocks@[i / 16], i % 16) as u64, i as usize),
        )
    }

    /// Every block starts at or before `len`, and block offsets fit in a `usize`.
    pub open spec fn blocks_fit_len(&self) -> bool {
        &&& 16 * self.blocks@.len() + 16 <= usize::MAX
        &&& self.blocks@.len() == 0 || 16 * (self.blocks@.len() - 1) <= self.len
    }

    /// Builds the reference set from its encoded blocks and label words, of
    /// which the first `len` vectors are real.
    pub fn new(vector_bytes: &[u8], label_bytes: &[u8], len: usize) -> (r: Self)
        ensures
            r.len == len,
            decodes_blocks(vector_bytes@, r.blocks@),
            decodes_words(label_bytes@, r.labels@),
    {
        let blocks = decode_blocks(vector_bytes);
        let labels = decode_words(label_bytes);
        ReferenceSIMD { blocks, labels, len }
    }

    /// Offers the candidate `(distance, idx)` to the nearest list.
    pub fn insert_best(best: &mut Neighbors, distance: u64, idx: usize)
        ensures
            final(best)@ == offer(old(best)@, distance, idx),
    {
        insert_best(best, distance, idx);
    }

    /// The `K` searched vectors nearest to `transaction`, nearest first,
    /// found by offering every searched vector in index order.
    pub fn nearest(&self, transaction: &Vector) -> (best: Neighbors)
        requires
            self.blocks_fit_len(),
        ensures
            best@ == scan(self.candidates(*transaction)),
    {
        let ghost cands = self.candidates(*transaction);
        let mut best: Neighbors = [(u64::MAX, 0usize); 5];
        assert(cands.take(0) =~= Seq::<Neighbor>::empty());
        assert(best@ =~= scan(cands.take(0)));
        let nb = self.blocks.len();
        let mut block_idx: usize = 0;
        while block_idx < nb
            invariant
                block_idx <= nb,
                nb == self.blocks@.len(),
                self.blocks_fit_len(),
                cands == self.candidates(*transaction),
                cands.len() == self.scanned(),
                block_idx < nb ==> 16 * block_idx <= self.len,
                best@ == scan(cands.take(
                    if self.len <= 16 * block_idx { self.len as int } else { 16 * block_idx },
                )),
            decreases nb - block_idx,
        {
            let block_start = block_idx * LANES;
            let real_count = if block_start + LANES <= self.len {
                LANES
            } else {
                self.len - block_start
            };
            let distances = distances_16(transaction, &self.blocks[block_idx]);
            let mut lane: usize = 0;
            while lane < real_count
                invariant
                    lane <= real_count <= LANES,
                    block_idx < nb,
                    nb == self.blocks@.len(),
                    block_start == 16 * block_idx,
                    block_start + real_count <= self.len,
                    real_count == LANES || block_start + real_count == self.len,
                    block_start + real_count <= cands.len(),
                    cands == self.candidates(*transaction),
                    forall|m: int| 0 <= m < LANES ==> #[trigger] distances@[m] == lane_distance(
                        transaction@,
                        self.blocks@[block_idx as int],
                        m,
                    ),
                    best@ == scan(cands.take(block_start + lane)),
                decreases real_count - lane,
            {
                let idx = block_start + lane;
                let distance = distances[lane] as u64;
                proof {
                    lemma_lane_position(block_idx as int, lane as int);
                    lemma_scan_step(cands, idx as int);
                }
                Self::insert_best(&mut best, distance, idx);
                lane = lane + 1;
            }
            block_idx = block_idx + 1;
        }
        assert(cands.take(cands.len() as int) =~= cands);
        best
    }

    /// Number of fraudulent labels among the `K` nearest searched vectors;
    /// the fraud score is this count over `K`.
    pub fn fraud_count(&self, transaction: &Vector) -> (count: usize)
        requires
            self.blocks_fit_len(),
            labels_cover(self.labels@, scan(self.candidates(*transaction))),
        ensures
            count == fraud_votes(self.labels@, scan(self.candidates(*transaction)), K as int),
            count <= K,
    {
        let best = self.nearest(transaction);
        count_frauds(self.labels.as_slice(), &best)
    }

    /// The fraud count of `transaction`, or `None` where the unchecked count
    /// would underflow on a block that starts past `len`, overflow a block
    /// offset, or read past the label words.
    pub fn fraud_count_checked(&self, transaction: &Vector) -> (count: Option<usize>)
        ensures
            count is Some <==> self.blocks_fit_len() && labels_cover(
                self.labels@,
                scan(self.candidates(*transaction)),
            ),
            count matches Some(c) ==> c == fraud_votes(
                self.labels@,
                scan(self.candidates(*transaction)),
                K as int,
            ),
    {
        let nb = self.blocks.len();
        if nb > (usize::MAX - 16) / 16 {
            return None;
        }
        if nb > 0 && 16 * (nb - 1) > self.len {
            return None;
        }
        let best = self.nearest(transaction);
        if !covers(self.labels.as_slice(), &best) {
            return None;
        }
        Some(count_frauds(self.labels.as_slice(), &best))
    }
}

/// The vectors `vs` are the first `len` lanes of the blocks: vector `k` is
/// lane `k % LANES` of block `k / LANES`.
pub open spec fn holds_lanes(r: ReferenceSIMD, vs: Seq<Vector>) -> bool {
    &&& vs.len() == r.len
    &&& forall|k: int, d: int|
        0 <= k < r.len && 0 <= d < DIMENSIONS ==> #[trigger] vs[k][d] == r.blocks@[k / 16][d][k % 16]
}

/// Searching blocks that hold, in their first `len` lanes, the vectors of a
/// `Reference` (whatever the lanes after them hold) offers the same candidates
/// in the same order as searching the `Reference` itself, provided the blocks
/// have a lane for each of the `len` vectors and every squared distance to the
/// query is below `2^32`; so both find the same nearest vectors, and with the
/// same labels the same fraud count.
pub proof fn lemma_blocked_search_agrees(scalar: Reference, blocked: ReferenceSIMD, t: Vector)
    requires
        blocked.len <= 16 * blocked.blocks@.len(),
        holds_lanes(blocked, scalar.vectors@),
        forall|i: int|
            0 <= i < scalar.vectors@.len() ==> squared_distance(t@, #[trigger] scalar.vectors@[i]@)
                < 0x1_0000_0000,
    ensures
        blocked.candidates(t) == scalar.candidates(t),
        scan(blocked.candidates(t)) == scan(scalar.candidates(t)),
        blocked.labels@ == scalar.labels@ ==> fraud_votes(
            blocked.labels@,
            scan(blocked.candidates(t)),
            K as int,
        ) == fraud_votes(scalar.labels@, scan(scalar.candidates(t)), K as int),
{
    let n = scalar.vectors@.len();
    assert(blocked.scanned() == n);
    let bc = blocked.candidates(t);
    let sc = scalar.candidates(t);
    assert forall|i: int| 0 <= i < n implies #[trigger] bc[i] == sc[i] by {
        let b = i / 16;
        let l = i % 16;
        let block = blocked.blocks@[b];
        assert(lane(block, l) =~= scalar.vectors@[i]@) by {
            assert forall|d: int| 0 <= d < DIMENSIONS implies lane(block, l)[d] == scalar.vectors@[i]@[d] by {
                assert(scalar.vectors@[i][d] == blocked.blocks@[i / 16][d][i % 16]);
            }
        }
        let sq = squared_distance(t@, scalar.vectors@[i]@);
        assert(0 <= sq < 0x1_0000_0000) by {
            crate::distance::lemma_prefix_u16_bound(t@, scalar.vectors@[i]@, DIMENSIONS as int);
        }
        assert(squared_distance(t@, lane(block, l)) == sq);
        assert(lane_distance(t@, block, l) == sq);
        assert(bc[i] == (lane_distance(t@, blocked.blocks@[i / 16], i % 16) as u64, i as usize));
        assert(sc[i] == (sq as u64, i as usize));
    }
    assert(bc =~= sc);
}

/// What the lanes at or after `len` hold never changes the search: two block
/// sets with the same `len`, each with a lane for every one of the `len`
/// vectors, and the same first `len` lanes offer the same candidates; so they
/// find the same nearest vectors, and with the same labels the same fraud count.
pub proof fn lemma_padding_lanes_do_not_matter(a: ReferenceSIMD, b: ReferenceSIMD, t: Vector)
    requires
        a.len == b.len,
        a.len <= 16 * a.blocks@.len(),
        b.len <= 16 * b.blocks@.len(),
        forall|k: int, d: int|
            0 <= k < a.len && 0 <= d < DIMENSIONS ==> #[trigger] a.blocks@[k / 16][d][k % 16]
                == b.blocks@[k / 16][d][k % 16],
    ensures
        a.candidates(t) == b.candidates(t),
        scan(a.candidates(t)) == scan(b.candidates(t)),
        a.labels@ == b.labels@ ==> fraud_votes(a.labels@, scan(a.candidates(t)), K as int)
            == fraud_votes(b.labels@, scan(b.candidates(t)), K as int),
{
    let ac = a.candidates(t);
    let bc = b.candidates(t);
    assert(a.scanned() == a.len && b.scanned() == b.len);
    assert forall|i: int| 0 <= i < a.len implies #[trigger] ac[i] == bc[i] by {
        assert(lane(a.blocks@[i / 16], i % 16) =~= lane(b.blocks@[i / 16], i % 16)) by {
            assert forall|d: int| 0 <= d < DIMENSIONS implies #[trigger] lane(a.blocks@[i / 16], i % 16)[d]
                == lane(b.blocks@[i / 16], i % 16)[d] by {
                assert(a.blocks@[i / 16][d][i % 16] == b.blocks@[i / 16][d][i % 16]);
            }
        }
    }
    assert(ac =~= bc);
}

/// Blocks that interleave the vectors of a `Reference`, with `len` set to
/// their number, hold those vectors in their first `len` lanes, zero after
/// them, and every block starts within `len`; so searching them agrees with
/// searching the `Reference` whenever every squared distance to the query is
/// below `2^32`.
pub proof fn lemma_interleaved_search_agrees(scalar: Reference, blocked: ReferenceSIMD, t: Vector)
    requires
        interleaves(blocked.blocks@, scalar.vectors@),
        blocked.len == scalar.vectors@.len(),
        forall|i: int|
            0 <= i < scalar.vectors@.len() ==> squared_distance(t@, #[trigger] scalar.vectors@[i]@)
                < 0x1_0000_0000,
    ensures
        blocked.blocks@.len() == 0 || 16 * (blocked.blocks@.len() - 1) <= blocked.len,
        blocked.len <= 16 * blocked.blocks@.len(),
        holds_lanes(blocked, scalar.vectors@),
        blocked.candidates(t) == scalar.candidates(t),
        scan(blocked.candidates(t)) == scan(scalar.candidates(t)),
        blocked.labels@ == scalar.labels@ ==> fraud_votes(
            blocked.labels@,
            scan(blocked.candidates(t)),
            K as int,
        ) == fraud_votes(scalar.labels@, scan(scalar.candidates(t)), K as int),
{
    let n = scalar.vectors@.len();
    let nb = blocked.blocks@.len();
    assert(nb == (n + 15) / 16);
    assert(n <= 16 * nb);
    assert forall|k: int, d: int| 0 <= k < n && 0 <= d < DIMENSIONS implies #[trigger] scalar.vectors@[k][d]
        == blocked.blocks@[k / 16][d][k % 16] by {
        assert(16 * (k / 16) + k % 16 == k);
        assert(blocked.blocks@[k / 16][d][k % 16] == scalar.vectors@[16 * (k / 16) + k % 16][d]);
    }
    lemma_blocked_search_agrees(scalar, blocked, t);
}

/// The list `nearest` returns for a query holds the nearest searched vectors.
pub proof fn lemma_blocked_nearest(r: ReferenceSIMD, t: Vector)
    ensures
        holds_nearest(r.candidates(t), scan(r.candidates(t))),
{
    let c = r.candidates(t);
    assert(distinct_indices(c));
    lemma_scan_keeps_nearest(c);
}

/// Labels with at least one word, and a word for each of the first `len`
/// vectors, cover every entry that the search for any query returns.
pub proof fn lemma_labels_cover_blocked_nearest(r: ReferenceSIMD, t: Vector)
    requires
        r.labels@.len() > 0,
        64 * r.labels@.len() >= r.len,
    ensures
        labels_cover(r.labels@, scan(r.candidates(t))),
{
    let c = r.candidates(t);
    let s = scan(c);
    lemma_blocked_nearest(r, t);
    assert forall|k: int| 0 <= k < s.len() implies #[trigger] s[k].1 / 64 < r.labels@.len() by {
        if s[k] != (u64::MAX, 0usize) {
            let j = choose|j: int| 0 <= j < c.len() && c[j] == s[k];
            assert(s[k].1 == j);
        }
    }
}

/// Loading the files written from encoded vectors `vs`, interleaved into
/// blocks, and from fraud flags `fraud`, with `len` set to the number of
/// vectors, gives back one block per 16 vectors holding every vector in its
/// lane, zero padding lanes, one label word per 64 flags, the flags as label
/// bits, and clear padding bits.
pub proof fn lemma_prepared_blocks_read_back(
    vs: Seq<Vector>,
    bs: Seq<Block>,
    fraud: Seq<bool>,
    words: Seq<u64>,
    vector_bytes: Seq<u8>,
    label_bytes: Seq<u8>,
    r: ReferenceSIMD,
)
    requires
        interleaves(bs, vs),
        encodes_blocks(vector_bytes, bs),
        packs(words, fraud),
        encodes_words(label_bytes, words),
        decodes_blocks(vector_bytes, r.blocks@),
        decodes_words(label_bytes, r.labels@),
        r.len == vs.len(),
    ensures
        r.blocks@.len() == (vs.len() + 15) / 16,
        holds_lanes(r, vs),
        forall|b: int, d: int, l: int|
            0 <= b < r.blocks@.len() && 0 <= d < DIMENSIONS && 0 <= l < LANES && 16 * b + l >= r.len
                ==> #[trigger] r.blocks@[b][d][l] == 0,
        r.labels@.len() == (fraud.len() + 63) / 64,
        forall|k: int| 0 <= k < fraud.len() ==> label_bit(r.labels@, k) == fraud[k],
        forall|k: int| fraud.len() <= k < 64 * r.labels@.len() ==> !label_bit(r.labels@, k),
{
    lemma_blocks_round_trip(vector_bytes, bs, r.blocks@);
    lemma_words_round_trip(label_bytes, words, r.labels@);
    let n = vs.len();
    assert forall|k: int, d: int| 0 <= k < n && 0 <= d < DIMENSIONS implies #[trigger] vs[k][d]
        == r.blocks@[k / 16][d][k % 16] by {
        assert(16 * (k / 16) + k % 16 == k);
        assert(k / 16 < (n + 15) / 16);
        assert(r.blocks@[k / 16][d][k % 16] == vs[16 * (k / 16) + k % 16][d]);
    }
}

/// The search for a query covers every one of the first `len` vectors that
/// the blocks hold, and nothing else: the list it returns holds `K` entries
/// ordered nearest first; every vector `k` below `len` (in lane `k % 16` of
/// block `k / 16`), with its distance to the query modulo `2^32`, is in it or
/// no nearer than its last entry; and every entry is such a vector with its
/// distance, or the unfilled `(u64::MAX, 0)`.
pub proof fn lemma_search_covers_first_len_lanes(r: ReferenceSIMD, t: Vector)
    requires
        r.len <= 16 * r.blocks@.len(),
    ensures
        ({
            let s = scan(r.candidates(t));
            &&& s.len() == K
            &&& nearest_first(s)
            &&& forall|k: int|
                0 <= k < r.len ==> s.contains(
                    (#[trigger] lane_distance(t@, r.blocks@[k / 16], k % 16) as u64, k as usize),
                ) || lane_distance(t@, r.blocks@[k / 16], k % 16) as u64 >= s[K - 1].0
            &&& forall|j: int|
                0 <= j < K ==> #[trigger] s[j] == (u64::MAX, 0usize) || (s[j].1 < r.len && s[j].0
                    == lane_distance(t@, r.blocks@[s[j].1 as int / 16], s[j].1 as int % 16) as u64)
        }),
{
    let c = r.candidates(t);
    let s = scan(c);
    lemma_blocked_nearest(r, t);
    assert(c.len() == r.len);
    assert forall|k: int| 0 <= k < r.len implies s.contains(
        (#[trigger] lane_distance(t@, r.blocks@[k / 16], k % 16) as u64, k as usize),
    ) || lane_distance(t@, r.blocks@[k / 16], k % 16) as u64 >= s[K - 1].0 by {
        assert(c[k] == (lane_distance(t@, r.blocks@[k / 16], k % 16) as u64, k as usize));
    }
    assert forall|j: int| 0 <= j < K implies #[trigger] s[j] == (u64::MAX, 0usize) || (s[j].1 < r.len
        && s[j].0 == lane_distance(t@, r.blocks@[s[j].1 as int / 16], s[j].1 as int % 16) as u64) by {
        if s[j] != (u64::MAX, 0usize) {
            let i = choose|i: int| 0 <= i < c.len() && c[i] == s[j];
            assert(s[j].1 == i);
        }
    }
}

} // verus!
