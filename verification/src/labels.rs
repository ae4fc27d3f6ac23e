//! Fraud labels packed one bit per reference vector into `u64` words.
//!
//! The label of vector `i` is bit `i % 64` of word `i / 64`; a set bit marks
//! the vector as fraudulent.

use vstd::prelude::*;
use vstd::string::StringSliceAdditionalSpecFns;
use crate::knn::{Neighbor, Neighbors, K};

verus! {

/// Whether bit `idx` of the packed words is set.
pub open spec fn label_bit(words: Seq<u64>, idx: int) -> bool {
    (words[idx / 64] >> ((idx % 64) as u64)) & 1u64 == 1u64
}

/// Number of entries among the first `n` of `best` whose label bit is set.
pub open spec fn fraud_votes(words: Seq<u64>, best: Seq<Neighbor>, n: int) -> nat
    decreases n,
{
    if n <= 0 {
        0
    } else {
        fraud_votes(words, best, n - 1) + if label_bit(words, best[n - 1].1 as int) {
            1nat
        } else {
            0nat
        }
    }
}

/// Every index in `best` has its label word in `words`.
pub open spec fn labels_cover(words: Seq<u64>, best: Seq<Neighbor>) -> bool {
    forall|k: int| 0 <= k < best.len() ==> #[trigger] best[k].1 / 64 < words.len()
}

/// Reads the label bit of reference vector `idx`.
pub fn is_fraud(labels: &[u64], idx: usize) -> (fraud: bool)
    requires
        idx / 64 < labels@.len(),
    ensures
        fraud == label_bit(labels@, idx as int),
{
    let word_idx = idx >> 6;
    let bit_idx = idx & 63;
    assert(word_idx == idx / 64 && bit_idx == idx % 64) by (bit_vector)
        requires
            word_idx == idx >> 6,
            bit_idx == idx & 63,
    ;
    let word = labels[word_idx];
    let bit = (word >> (bit_idx as u64)) & 1;
    assert(bit == 0 || bit == 1) by (bit_vector)
        requires
            bit == (word >> (bit_idx as u64)) & 1,
    ;
    bit != 0
}

/// Counts the neighbours whose label marks them as fraudulent.
pub fn count_frauds(labels: &[u64], best: &Neighbors) -> (count: usize)
    requires
        labels_cover(labels@, best@),
    ensures
        count == fraud_votes(labels@, best@, K as int),
        count == fraudulent_neighbours(labels@, best@).len(),
        count <= K,
{
    proof {
        lemma_fraud_votes_count_labelled_neighbours(labels@, best@);
    }
    let mut count: usize = 0;
    let mut k: usize = 0;
    while k < K
        invariant
            k <= K,
            labels_cover(labels@, best@),
            count == fraud_votes(labels@, best@, k as int),
            count <= k,
        decreases K - k,
    {
        let (_, idx) = best[k];
        assert(best@[k as int].1 / 64 < labels@.len());
        if is_fraud(labels, idx) {
            count = count + 1;
        }
        k = k + 1;
    }
    count
}

/// `words` packs one flag per vector: one word per 64 flags, bit `i` set
/// exactly when `fraud[i]` holds, and the padding bits of the last word clear.
pub open spec fn packs(words: Seq<u64>, fraud: Seq<bool>) -> bool {
    &&& words.len() == (fraud.len() + 63) / 64
    &&& forall|i: int| 0 <= i < fraud.len() ==> label_bit(words, i) == fraud[i]
    &&& forall|i: int| fraud.len() <= i < 64 * words.len() ==> !label_bit(words, i)
}

/// Whether every entry of `best` has its label word in `labels`.
pub fn covers(labels: &[u64], best: &Neighbors) -> (covered: bool)
    ensures
        covered == labels_cover(labels@, best@),
{
    let mut k: usize = 0;
    while k < K
        invariant
            k <= K,
            forall|j: int| 0 <= j < k ==> #[trigger] best@[j].1 / 64 < labels@.len(),
        decreases K - k,
    {
        if best[k].1 / 64 >= labels.len() {
            assert(!labels_cover(labels@, best@));
            return false;
        }
        k = k + 1;
    }
    true
}

/// Packs one flag per vector into label words: bit `i` is set exactly when
/// `fraud[i]` holds, and the padding bits of the last word are clear.
pub fn pack_labels(fraud: &[bool]) -> (words: Vec<u64>)
    requires
        fraud@.len() + 63 <= usize::MAX,
    ensures
        packs(words@, fraud@),
{
    let n = fraud.len();
    let len = (n + 63) / 64;
    let mut words: Vec<u64> = Vec::new();
    while words.len() < len
        invariant
            words@.len() <= len,
            forall|w: int| 0 <= w < words@.len() ==> words@[w] == 0u64,
        decreases len - words@.len(),
    {
        words.push(0);
    }
    assert forall|i: int| 0 <= i < 64 * words@.len() implies !label_bit(words@, i) by {
        let b = (i % 64) as u64;
        assert(words@[i / 64] == 0u64);
        assert((0u64 >> b) & 1u64 == 0u64) by (bit_vector);
    }
    let mut idx: usize = 0;
    while idx < n
        invariant
            idx <= n,
            n == fraud@.len(),
            len == (n + 63) / 64,
            words@.len() == len,
            forall|i: int| 0 <= i < idx ==> label_bit(words@, i) == fraud@[i],
            forall|i: int| idx <= i < 64 * words@.len() ==> !label_bit(words@, i),
        decreases n - idx,
    {
        if fraud[idx] {
            let word_idx = idx >> 6;
            let bit_idx = idx & 63;
            assert(word_idx == idx / 64 && bit_idx == idx % 64) by (bit_vector)
                requires
                    word_idx == idx >> 6,
                    bit_idx == idx & 63,
            ;
            let ghost before = words@;
            let old_word = words[word_idx];
            let new_word = old_word | (1u64 << (bit_idx as u64));
            words.set(word_idx, new_word);
            assert forall|i: int| 0 <= i < 64 * words@.len() && i != idx implies label_bit(words@, i)
                == label_bit(before, i) by {
                if i / 64 != word_idx as int {
                    assert(words@[i / 64] == before[i / 64]);
                } else {
                    let b = (i % 64) as u64;
                    let c = bit_idx as u64;
                    assert(b != c);
                    assert(b < 64 && c < 64 && b != c ==> ((old_word | (1u64 << c)) >> b) & 1u64 == (
                    old_word >> b) & 1u64) by (bit_vector);
                }
            }
            let c = bit_idx as u64;
            assert(c < 64 ==> ((old_word | (1u64 << c)) >> c) & 1u64 == 1u64) by (bit_vector);
            assert forall|i: int| idx < i < 64 * words@.len() implies !label_bit(words@, i) by {
                assert(!label_bit(before, i));
            }
        }
        idx = idx + 1;
    }
    words
}

/// Whether a record's label marks it as fraudulent: the label is exactly `fraud`.
pub fn is_fraud_label(label: &str) -> (fraud: bool)
    ensures
        fraud == (label.spec_bytes() == seq![102u8, 114u8, 97u8, 117u8, 100u8]),
{
    let b = label.as_bytes();
    let fraud = b.len() == 5 && b[0] == 102 && b[1] == 114 && b[2] == 97 && b[3] == 117 && b[4] == 100;
    proof {
        if fraud {
            assert(b@ =~= seq![102u8, 114u8, 97u8, 117u8, 100u8]);
        }
    }
    fraud
}

/// The neighbours among `best`, in order, whose label marks them as fraudulent.
pub open spec fn fraudulent_neighbours(words: Seq<u64>, best: Seq<Neighbor>) -> Seq<Neighbor> {
    best.filter(|e: Neighbor| label_bit(words, e.1 as int))
}

/// Counting one vote per labelled neighbour among the first `n` gives the
/// number of those neighbours that are labelled fraudulent.
proof fn lemma_votes_count_labelled(words: Seq<u64>, best: Seq<Neighbor>, n: int)
    requires
        0 <= n <= best.len(),
    ensures
        fraud_votes(words, best, n) == fraudulent_neighbours(words, best.take(n)).len(),
    decreases n,
{
    reveal_with_fuel(Seq::filter, 1);
    if n > 0 {
        lemma_votes_count_labelled(words, best, n - 1);
        assert(best.take(n).drop_last() =~= best.take(n - 1));
    } else {
        assert(best.take(0).len() == 0);
    }
}

/// The fraud count of a neighbour list is the number of its entries whose
/// label bit is set: every entry labelled fraudulent adds one, every other
/// entry adds nothing.  In particular it is `K` when every entry is labelled
/// fraudulent and `0` when none is.
pub proof fn lemma_fraud_votes_count_labelled_neighbours(words: Seq<u64>, best: Seq<Neighbor>)
    requires
        best.len() == K,
    ensures
        fraud_votes(words, best, K as int) == fraudulent_neighbours(words, best).len(),
        (forall|k: int| 0 <= k < K ==> label_bit(words, #[trigger] best[k].1 as int)) ==> fraud_votes(
            words,
            best,
            K as int,
        ) == K,
        (forall|k: int| 0 <= k < K ==> !label_bit(words, #[trigger] best[k].1 as int)) ==> fraud_votes(
            words,
            best,
            K as int,
        ) == 0,
{
    lemma_votes_count_labelled(words, best, K as int);
    assert(best.take(K as int) =~= best);
    let f = |e: Neighbor| label_bit(words, e.1 as int);
    if forall|k: int| 0 <= k < K ==> label_bit(words, #[trigger] best[k].1 as int) {
        lemma_filter_all(best, f, K as int);
    }
    if forall|k: int| 0 <= k < K ==> !label_bit(words, #[trigger] best[k].1 as int) {
        lemma_filter_none(best, f, K as int);
    }
}

proof fn lemma_filter_all(s: Seq<Neighbor>, f: spec_fn(Neighbor) -> bool, n: int)
    requires
        0 <= n <= s.len(),
        forall|k: int| 0 <= k < n ==> f(#[trigger] s[k]),
    ensures
        s.take(n).filter(f).len() == n,
    decreases n,
{
    reveal_with_fuel(Seq::filter, 1);
    if n > 0 {
        lemma_filter_all(s, f, n - 1);
        assert(s.take(n).drop_last() =~= s.take(n - 1));
        assert(f(s.take(n).last()));
    }
}

proof fn lemma_filter_none(s: Seq<Neighbor>, f: spec_fn(Neighbor) -> bool, n: int)
    requires
        0 <= n <= s.len(),
        forall|k: int| 0 <= k < n ==> !f(#[trigger] s[k]),
    ensures
        s.take(n).filter(f).len() == 0,
    decreases n,
{
    reveal_with_fuel(Seq::filter, 1);
    if n > 0 {
        lemma_filter_none(s, f, n - 1);
        assert(s.take(n).drop_last() =~= s.take(n - 1));
        assert(!f(s.take(n).last()));
    }
}

} // verus!
