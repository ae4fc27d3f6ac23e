//! Bounded list of the nearest candidates seen so far.
//!
//! A neighbour is a pair `(distance, index)`.  The list has `K` slots,
//! starts filled with `(u64::MAX, 0)` and is kept ordered by distance:
//! a new candidate enters at the last slot when it is strictly closer than
//! the entry there, then moves up past every entry strictly farther away.

use vstd::prelude::*;

verus! {

/// A candidate: its distance to the query and its index in the reference set.
pub type Neighbor = (u64, usize);

/// Number of neighbours that vote.
pub const K: usize = 5;

/// The `K` nearest candidates seen so far, nearest first.
pub type Neighbors = [Neighbor; K];

/// The slot at which a candidate at distance `d`, placed at slot `i`, comes to
/// rest after moving up past every entry of `s` above it that is strictly farther.
pub open spec fn settle_slot(s: Seq<Neighbor>, d: u64, i: int) -> int
    decreases i,
{
    if 0 < i && d < s[i - 1].0 {
        settle_slot(s, d, i - 1)
    } else {
        i
    }
}

/// The list `s` after offering it the candidate `(d, idx)`.
pub open spec fn offer(s: Seq<Neighbor>, d: u64, idx: usize) -> Seq<Neighbor> {
    if d >= s[K - 1].0 {
        s
    } else {
        let p = settle_slot(s, d, K - 1);
        s.take(p).push((d, idx)) + s.subrange(p, K - 1)
    }
}

/// The list before any candidate was offered: every slot holds `(u64::MAX, 0)`.
pub open spec fn unfilled() -> Seq<Neighbor> {
    Seq::new(K as nat, |i: int| (u64::MAX, 0usize))
}

/// The list after offering, in order, every candidate of `cands` to `unfilled()`.
pub open spec fn scan(cands: Seq<Neighbor>) -> Seq<Neighbor>
    decreases cands.len(),
{
    if cands.len() == 0 {
        unfilled()
    } else {
        offer(scan(cands.drop_last()), cands.last().0, cands.last().1)
    }
}

/// The entries of `s` are ordered by distance, nearest first.
pub open spec fn nearest_first(s: Seq<Neighbor>) -> bool {
    forall|i: int, j: int| 0 <= i <= j < s.len() ==> s[i].0 <= s[j].0
}

/// No two candidates of `cands` share an index.
pub open spec fn distinct_indices(cands: Seq<Neighbor>) -> bool {
    forall|i: int, j: int| 0 <= i < j < cands.len() ==> cands[i].1 != cands[j].1
}

proof fn lemma_settle_slot(s: Seq<Neighbor>, d: u64, i: int)
    requires
        0 <= i < s.len(),
    ensures
        0 <= settle_slot(s, d, i) <= i,
        forall|k: int| settle_slot(s, d, i) <= k < i ==> d < #[trigger] s[k].0,
        settle_slot(s, d, i) > 0 ==> s[settle_slot(s, d, i) - 1].0 <= d,
    decreases i,
{
    if 0 < i && d < s[i - 1].0 {
        lemma_settle_slot(s, d, i - 1);
    }
}

/// Where each entry of `offer(s, d, idx)` comes from, slot by slot.
proof fn lemma_offer_slots(s: Seq<Neighbor>, d: u64, idx: usize)
    requires
        s.len() == K,
        d < s[K - 1].0,
    ensures
        ({
            let o = offer(s, d, idx);
            let p = settle_slot(s, d, K - 1);
            &&& 0 <= p < K
            &&& o.len() == K
            &&& forall|k: int| 0 <= k < p ==> o[k] == s[k]
            &&& o[p] == (d, idx)
            &&& forall|k: int| p < k < K ==> o[k] == s[k - 1]
            &&& forall|k: int| p <= k < K - 1 ==> d < #[trigger] s[k].0
            &&& p > 0 ==> s[p - 1].0 <= d
        }),
{
    lemma_settle_slot(s, d, K - 1);
}

/// Offering a candidate to a list ordered nearest first leaves it ordered
/// nearest first.
pub proof fn lemma_offer_keeps_order(s: Seq<Neighbor>, d: u64, idx: usize)
    requires
        s.len() == K,
        nearest_first(s),
    ensures
        offer(s, d, idx).len() == K,
        nearest_first(offer(s, d, idx)),
{
    if d < s[K - 1].0 {
        lemma_offer_slots(s, d, idx);
        let o = offer(s, d, idx);
        let p = settle_slot(s, d, K - 1);
        assert forall|i: int, j: int| 0 <= i <= j < o.len() implies o[i].0 <= o[j].0 by {
            if j == p {
                if i < p {
                    assert(s[i].0 <= s[p - 1].0);
                }
            } else if i == p {
                if j > p {
                    assert(d < s[j - 1].0);
                }
            } else if i < p && j > p {
                assert(s[i].0 <= s[j - 1].0);
            } else if i > p {
                assert(s[i - 1].0 <= s[j - 1].0);
            }
        }
    }
}

/// `s` holds the nearest of the candidates `cands`: it has `K` entries,
/// ordered nearest first; every candidate is in it or no nearer than its last
/// entry; every entry is a candidate nearer than `u64::MAX`, or the unfilled
/// `(u64::MAX, 0)`; and no candidate fills two slots.
pub open spec fn holds_nearest(cands: Seq<Neighbor>, s: Seq<Neighbor>) -> bool {
    &&& s.len() == K
    &&& nearest_first(s)
    &&& forall|j: int| 0 <= j < cands.len() ==> s.contains(#[trigger] cands[j]) || cands[j].0 >= s[K - 1].0
    &&& forall|k: int|
        0 <= k < K ==> #[trigger] s[k] == (u64::MAX, 0usize) || (cands.contains(s[k]) && s[k].0
            < u64::MAX)
    &&& forall|k1: int, k2: int|
        0 <= k1 < k2 < K && #[trigger] s[k1] == #[trigger] s[k2] ==> s[k1] == (u64::MAX, 0usize)
}

/// Offering, in order, candidates with distinct indices to the unfilled list
/// leaves it holding the nearest of them.
pub proof fn lemma_scan_keeps_nearest(cands: Seq<Neighbor>)
    requires
        distinct_indices(cands),
    ensures
        holds_nearest(cands, scan(cands)),
    decreases cands.len(),
{
    if cands.len() == 0 {
        assert(unfilled().len() == K);
    } else {
        let prev = cands.drop_last();
        assert(distinct_indices(prev));
        lemma_scan_keeps_nearest(prev);
        let s = scan(prev);
        let c = cands.last();
        let o = scan(cands);
        assert(o == offer(s, c.0, c.1));
        lemma_offer_keeps_order(s, c.0, c.1);
        if c.0 < s[K - 1].0 {
            lemma_offer_slots(s, c.0, c.1);
            let p = settle_slot(s, c.0, K - 1);
            assert(o[p] == c);
            assert forall|j: int| 0 <= j < cands.len() implies o.contains(#[trigger] cands[j])
                || cands[j].0 >= o[K - 1].0 by {
                if j == cands.len() - 1 {
                    assert(o[p] == cands[j]);
                } else {
                    assert(prev[j] == cands[j]);
                    if s.contains(cands[j]) {
                        let k = choose|k: int| 0 <= k < s.len() && s[k] == cands[j];
                        if k < p {
                            assert(o[k] == cands[j]);
                        } else if k < K - 1 {
                            assert(o[k + 1] == cands[j]);
                        } else {
                            assert(o[K - 1].0 <= s[K - 1].0);
                        }
                    } else {
                        if p < K - 1 {
                            assert(o[K - 1] == s[K - 2]);
                        }
                    }
                }
            }
            assert forall|k: int| 0 <= k < K implies #[trigger] o[k] == (u64::MAX, 0usize) || (
            cands.contains(o[k]) && o[k].0 < u64::MAX) by {
                if k == p {
                    assert(cands[cands.len() - 1] == o[k]);
                } else {
                    let q = if k < p { k } else { k - 1 };
                    assert(o[k] == s[q]);
                    if s[q] != (u64::MAX, 0usize) {
                        let j = choose|j: int| 0 <= j < prev.len() && prev[j] == s[q];
                        assert(cands[j] == o[k]);
                    }
                }
            }
            assert forall|k1: int, k2: int|
                0 <= k1 < k2 < K && #[trigger] o[k1] == #[trigger] o[k2] implies o[k1] == (
                u64::MAX,
                0usize,
            ) by {
                let q1 = if k1 < p { k1 } else { k1 - 1 };
                let q2 = if k2 < p { k2 } else { k2 - 1 };
                if k1 == p || k2 == p {
                    let q = if k1 == p { q2 } else { q1 };
                    assert(o[k1] == c && s[q] == c);
                    if s[q] != (u64::MAX, 0usize) {
                        let j = choose|j: int| 0 <= j < prev.len() && prev[j] == s[q];
                        assert(cands[j] == prev[j]);
                        assert(cands[j].1 != cands[cands.len() - 1].1);
                    }
                } else {
                    assert(o[k1] == s[q1] && o[k2] == s[q2]);
                }
            }
        } else {
            assert(o == s);
            assert forall|j: int| 0 <= j < cands.len() implies o.contains(#[trigger] cands[j])
                || cands[j].0 >= o[K - 1].0 by {
                if j < cands.len() - 1 {
                    assert(prev[j] == cands[j]);
                }
            }
            assert forall|k: int| 0 <= k < K implies #[trigger] o[k] == (u64::MAX, 0usize) || (
            cands.contains(o[k]) && o[k].0 < u64::MAX) by {
                if o[k] != (u64::MAX, 0usize) {
                    let j = choose|j: int| 0 <= j < prev.len() && prev[j] == s[k];
                    assert(cands[j] == o[k]);
                }
            }
        }
    }
}

/// `scan` has `K` entries.
pub proof fn lemma_scan_len(cands: Seq<Neighbor>)
    ensures
        scan(cands).len() == K,
    decreases cands.len(),
{
    if cands.len() > 0 {
        lemma_scan_len(cands.drop_last());
        let s = scan(cands.drop_last());
        let c = cands.last();
        if c.0 < s[K - 1].0 {
            lemma_offer_slots(s, c.0, c.1);
        }
    }
}

/// Scanning one more candidate offers it to the list scanned so far.
pub proof fn lemma_scan_step(cands: Seq<Neighbor>, k: int)
    requires
        0 <= k < cands.len(),
    ensures
        scan(cands.take(k + 1)) == offer(scan(cands.take(k)), cands[k].0, cands[k].1),
{
    assert(cands.take(k + 1).drop_last() =~= cands.take(k));
}

/// Offers the candidate `(distance, idx)` to `best`: it is kept when it is
/// strictly closer than the last entry, which it then replaces, and it moves
/// up past every entry that is strictly farther away.
pub fn insert_best(best: &mut Neighbors, distance: u64, idx: usize)
    ensures
        final(best)@ == offer(old(best)@, distance, idx),
{
    if distance >= best[K - 1].0 {
        return;
    }
    let ghost s = best@;
    best[K - 1] = (distance, idx);
    let mut i: usize = K - 1;
    while i > 0 && best[i].0 < best[i - 1].0
        invariant
            0 <= i < K,
            s.len() == K,
            best@ == s.take(i as int).push((distance, idx)) + s.subrange(i as int, K - 1),
            settle_slot(s, distance, i as int) == settle_slot(s, distance, K - 1),
        decreases i,
    {
        let upper = best[i - 1];
        best[i - 1] = best[i];
        best[i] = upper;
        i = i - 1;
        assert(best@ =~= s.take(i as int).push((distance, idx)) + s.subrange(i as int, K - 1));
    }
}

} // verus!
