//! Reference set stored vector by vector, searched exhaustively.

use vstd::prelude::*;
use crate::codec::{
    decode_vectors, decode_words, decodes_vectors, decodes_words, encodes_vectors, encodes_words,
    lemma_vectors_round_trip, lemma_words_round_trip,
};
use crate::distance::{differences_fit_i32, squared_distance, squared_distance_prefix};
use crate::knn::{
    distinct_indices, holds_nearest, insert_best, lemma_scan_keeps_nearest, lemma_scan_step,
    nearest_first, scan,
    Neighbor, Neighbors, K,
};
use crate::labels::{count_frauds, covers, fraud_votes, label_bit, labels_cover, packs};
use crate::{Vector, DIMENSIONS};

verus! {

/// Labelled reference vectors: `vectors[i]` is labelled by bit `i` of `labels`.
pub struct Reference {
    pub vectors: Vec<Vector>,
    pub labels: Vec<u64>,
}

impl Reference {
    /// The candidates offered for the query `t`, in index order: each
    /// reference vector's squared distance to `t`, with its index.
    pub open spec fn candidates(&self, t: Vector) -> Seq<Neighbor> {
        Seq::new(
            self.vectors@.len(),
            |i: int| (squared_distance(t@, self.vectors@[i]@) as u64, i as usize),
        )
    }

    /// Every coordinate difference between `t` and a reference vector has a
    /// square that fits in an `i32`.
    pub open spec fn accepts(&self, t: Vector) -> bool {
        forall|i: int| 0 <= i < self.vectors@.len() ==> differences_fit_i32(t@, #[trigger] self.vectors@[i]@)
    }

    /// Builds the reference set from its encoded vectors and label words.
    pub fn new(vector_bytes: &[u8], label_bytes: &[u8]) -> (r: Self)
        ensures
            decodes_vectors(vector_bytes@, r.vectors@),
            decodes_words(label_bytes@, r.labels@),
    {
        let vectors = decode_vectors(vector_bytes);
        let labels = decode_words(label_bytes);
        Reference { vectors, labels }
    }

    /// Squared Euclidean distance between two vectors.
    pub fn squared_euclidean_distance(a: &Vector, b: &Vector) -> (sum: u64)
        requires
            differences_fit_i32(a@, b@),
        ensures
            sum == squared_distance(a@, b@),
    {
        let mut sum: u64 = 0;
        let mut i: usize = 0;
        while i < DIMENSIONS
            invariant
                i <= DIMENSIONS,
                differences_fit_i32(a@, b@),
                sum == squared_distance_prefix(a@, b@, i as int),
                sum <= i * (i32::MAX as int),
            decreases DIMENSIONS - i,
        {
            let diff: i32 = a[i] as i32 - b[i] as i32;
            assert(diff * diff <= i32::MAX);
            assert(0 <= diff * diff) by (nonlinear_arith);
            sum = sum + (diff * diff) as u64;
            i = i + 1;
        }
        sum
    }

    /// Every coordinate difference between `t` and each reference vector has
    /// a square that fits in an `i32`.
    pub fn accepts_query(&self, t: &Vector) -> (ok: bool)
        ensures
            ok == self.accepts(*t),
    {
        let mut i: usize = 0;
        while i < self.vectors.len()
            invariant
                i <= self.vectors@.len(),
                forall|j: int| 0 <= j < i ==> differences_fit_i32(t@, #[trigger] self.vectors@[j]@),
            decreases self.vectors@.len() - i,
        {
            let v = &self.vectors[i];
            let mut d: usize = 0;
            while d < DIMENSIONS
                invariant
                    d <= DIMENSIONS,
                    i < self.vectors@.len(),
                    *v == self.vectors@[i as int],
                    forall|k: int| 0 <= k < d ==> (t@[k] - v@[k]) * (t@[k] - v@[k]) <= i32::MAX,
                decreases DIMENSIONS - d,
            {
                let (x, y) = (t[d], v[d]);
                let diff: u64 = if x >= y {
                    (x - y) as u64
                } else {
                    (y - x) as u64
                };
                assert(diff * diff == (x - y) * (x - y) && diff * diff <= 0xffff_ffff) by (nonlinear_arith)
                    requires
                        diff == if x >= y { x - y } else { y - x },
                        diff <= 65535,
                ;
                if diff * diff > 0x7fff_ffff {
                    assert(!differences_fit_i32(t@, v@));
                    return false;
                }
                d = d + 1;
            }
            i = i + 1;
        }
        true
    }

    /// The `K` reference vectors nearest to `transaction`, nearest first,
    /// found by offering every vector in index order.
    pub fn nearest(&self, transaction: &Vector) -> (best: Neighbors)
        requires
            self.accepts(*transaction),
        ensures
            best@ == scan(self.candidates(*transaction)),
    {
        let ghost cands = self.candidates(*transaction);
        let mut best: Neighbors = [(u64::MAX, 0usize); 5];
        assert(cands.take(0) =~= Seq::<Neighbor>::empty());
        assert(best@ =~= scan(cands.take(0)));
        let mut idx: usize = 0;
        while idx < self.vectors.len()
            invariant
                idx <= self.vectors@.len(),
                cands == self.candidates(*transaction),
                self.accepts(*transaction),
                best@ == scan(cands.take(idx as int)),
            decreases self.vectors@.len() - idx,
        {
            let sum = Self::squared_euclidean_distance(transaction, &self.vectors[idx]);
            proof {
                lemma_scan_step(cands, idx as int);
            }
            insert_best(&mut best, sum, idx);
            idx = idx + 1;
        }
        assert(cands.take(idx as int) =~= cands);
        best
    }

    /// Number of fraudulent labels among the `K` nearest reference vectors;
    /// the fraud score is this count over `K`.
    pub fn fraud_count(&self, transaction: &Vector) -> (count: usize)
        requires
            self.accepts(*transaction),
            labels_cover(self.labels@, scan(self.candidates(*transaction))),
        ensures
            count == fraud_votes(self.labels@, scan(self.candidates(*transaction)), K as int),
            count <= K,
    {
        let best = self.nearest(transaction);
        count_frauds(self.labels.as_slice(), &best)
    }

    /// The fraud count of `transaction`, or `None` where the unchecked count
    /// would overflow or read past the label words.
    pub fn fraud_count_checked(&self, transaction: &Vector) -> (count: Option<usize>)
        ensures
            count is Some <==> self.accepts(*transaction) && labels_cover(
                self.labels@,
                scan(self.candidates(*transaction)),
            ),
            count matches Some(c) ==> c == fraud_votes(
                self.labels@,
                scan(self.candidates(*transaction)),
                K as int,
            ),
    {
        if !self.accepts_query(transaction) {
            return None;
        }
        let best = self.nearest(transaction);
        if !covers(self.labels.as_slice(), &best) {
            return None;
        }
        Some(count_frauds(self.labels.as_slice(), &best))
    }
}

/// The list `nearest` returns for a query holds the nearest reference vectors.
pub proof fn lemma_reference_nearest(r: Reference, t: Vector)
    requires
        r.vectors@.len() <= usize::MAX,
    ensures
        holds_nearest(r.candidates(t), scan(r.candidates(t))),
{
    let c = r.candidates(t);
    assert(distinct_indices(c));
    lemma_scan_keeps_nearest(c);
}

/// Labels with at least one word, and a word for every reference vector,
/// cover every entry that the search for any query returns.
pub proof fn lemma_labels_cover_nearest(r: Reference, t: Vector)
    requires
        r.vectors@.len() <= usize::MAX,
        r.labels@.len() > 0,
        64 * r.labels@.len() >= r.vectors@.len(),
    ensures
        labels_cover(r.labels@, scan(r.candidates(t))),
{
    let c = r.candidates(t);
    let s = scan(c);
    lemma_reference_nearest(r, t);
    assert forall|k: int| 0 <= k < s.len() implies #[trigger] s[k].1 / 64 < r.labels@.len() by {
        if s[k] != (u64::MAX, 0usize) {
            let j = choose|j: int| 0 <= j < c.len() && c[j] == s[k];
            assert(s[k].1 == j);
        }
    }
}

/// Loading the files written from encoded vectors `vs` and fraud flags
/// `fraud` gives back the vectors, one label word per 64 flags, the flags as
/// label bits, and clear padding bits.
pub proof fn lemma_prepared_reference_reads_back(
    vs: Seq<Vector>,
    fraud: Seq<bool>,
    words: Seq<u64>,
    vector_bytes: Seq<u8>,
    label_bytes: Seq<u8>,
    r: Reference,
)
    requires
        encodes_vectors(vector_bytes, vs),
        packs(words, fraud),
        encodes_words(label_bytes, words),
        decodes_vectors(vector_bytes, r.vectors@),
        decodes_words(label_bytes, r.labels@),
    ensures
        r.vectors@ == vs,
        r.labels@.len() == (fraud.len() + 63) / 64,
        forall|k: int| 0 <= k < fraud.len() ==> label_bit(r.labels@, k) == fraud[k],
        forall|k: int| fraud.len() <= k < 64 * r.labels@.len() ==> !label_bit(r.labels@, k),
{
    lemma_vectors_round_trip(vector_bytes, vs, r.vectors@);
    lemma_words_round_trip(label_bytes, words, r.labels@);
}

/// The search for a query covers every reference vector and nothing else:
/// the list it returns holds `K` entries ordered nearest first; every
/// reference vector, with its squared distance to the query, is in it or no
/// nearer than its last entry; and every entry is a reference vector with its
/// squared distance, or the unfilled `(u64::MAX, 0)`.
pub proof fn lemma_search_covers_reference(r: Reference, t: Vector)
    requires
        r.vectors@.len() <= usize::MAX,
    ensures
        ({
            let s = scan(r.candidates(t));
            &&& s.len() == K
            &&& nearest_first(s)
            &&& forall|i: int|
                0 <= i < r.vectors@.len() ==> s.contains(
                    (squared_distance(t@, #[trigger] r.vectors@[i]@) as u64, i as usize),
                ) || squared_distance(t@, r.vectors@[i]@) as u64 >= s[K - 1].0
            &&& forall|k: int|
                0 <= k < K ==> #[trigger] s[k] == (u64::MAX, 0usize) || (s[k].1 < r.vectors@.len()
                    && s[k].0 == squared_distance(t@, r.vectors@[s[k].1 as int]@) as u64)
        }),
{
    let c = r.candidates(t);
    let s = scan(c);
    lemma_reference_nearest(r, t);
    assert forall|i: int| 0 <= i < r.vectors@.len() implies s.contains(
        (squared_distance(t@, #[trigger] r.vectors@[i]@) as u64, i as usize),
    ) || squared_distance(t@, r.vectors@[i]@) as u64 >= s[K - 1].0 by {
        assert(c[i] == (squared_distance(t@, r.vectors@[i]@) as u64, i as usize));
    }
    assert forall|k: int| 0 <= k < K implies #[trigger] s[k] == (u64::MAX, 0usize) || (s[k].1
        < r.vectors@.len() && s[k].0 == squared_distance(t@, r.vectors@[s[k].1 as int]@) as u64) by {
        if s[k] != (u64::MAX, 0usize) {
            let j = choose|j: int| 0 <= j < c.len() && c[j] == s[k];
            assert(s[k].1 == j);
        }
    }
}

} // verus!
