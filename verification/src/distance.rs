//! Squared Euclidean distances between encoded vectors.

use vstd::prelude::*;
use crate::codec::Block;
use crate::{Vector, DIMENSIONS, LANES};

verus! {

/// Sum of the squared differences of the first `n` coordinates of `a` and `b`.
pub open spec fn squared_distance_prefix(a: Seq<u16>, b: Seq<u16>, n: int) -> int
    decreases n,
{
    if n <= 0 {
        0
    } else {
        squared_distance_prefix(a, b, n - 1) + (a[n - 1] - b[n - 1]) * (a[n - 1] - b[n - 1])
    }
}

/// Squared Euclidean distance between two vectors of the same length.
pub open spec fn squared_distance(a: Seq<u16>, b: Seq<u16>) -> int {
    squared_distance_prefix(a, b, a.len() as int)
}

/// Every coordinate difference of `a` and `b` has a square that fits in an `i32`.
pub open spec fn differences_fit_i32(a: Seq<u16>, b: Seq<u16>) -> bool {
    forall|k: int| 0 <= k < a.len() ==> (a[k] - b[k]) * (a[k] - b[k]) <= i32::MAX
}

/// A sum of squared differences is never negative and grows with `n`
/// by at most the largest square.
pub proof fn lemma_prefix_bounds(a: Seq<u16>, b: Seq<u16>, n: int, bound: int)
    requires
        0 <= n <= a.len(),
        a.len() <= b.len(),
        forall|k: int| 0 <= k < n ==> (a[k] - b[k]) * (a[k] - b[k]) <= bound,
    ensures
        0 <= squared_distance_prefix(a, b, n) <= n * bound,
    decreases n,
{
    if n > 0 {
        lemma_prefix_bounds(a, b, n - 1, bound);
        let d = a[n - 1] - b[n - 1];
        assert(d * d <= bound);
        assert(0 <= d * d) by (nonlinear_arith);
        assert((n - 1) * bound + bound == n * bound) by (nonlinear_arith);
    } else {
        assert(n * bound == 0) by (nonlinear_arith)
            requires
                n == 0,
        ;
    }
}

proof fn lemma_prefix_terms(a: Seq<u16>, b: Seq<u16>, n: int)
    requires
        0 <= n <= a.len(),
        a.len() == b.len(),
    ensures
        forall|k: int| 0 <= k < n ==> (a[k] - b[k]) * (a[k] - b[k]) <= squared_distance_prefix(a, b, n),
        squared_distance_prefix(a, b, n) == squared_distance_prefix(b, a, n),
        squared_distance_prefix(a, b, n) == 0 <==> forall|k: int| 0 <= k < n ==> a[k] == b[k],
    decreases n,
{
    if n > 0 {
        lemma_prefix_terms(a, b, n - 1);
        lemma_prefix_u16_bound(a, b, n - 1);
        let x = a[n - 1] - b[n - 1];
        assert(0 <= x * x) by (nonlinear_arith);
        let y = b[n - 1] - a[n - 1];
        assert(x * x == y * y) by (nonlinear_arith)
            requires
                y == -x,
        ;
        assert(x * x == 0 <==> x == 0) by (nonlinear_arith);
        assert forall|k: int| 0 <= k < n - 1 implies 0 <= (a[k] - b[k]) * (a[k] - b[k]) by {
            let y = a[k] - b[k];
            assert(0 <= y * y) by (nonlinear_arith);
        }
    }
}

/// The squared distance of two vectors of one length is at least the square
/// of each coordinate difference, does not depend on their order, and is zero
/// exactly when the vectors are equal.
pub proof fn lemma_squared_distance_laws(a: Seq<u16>, b: Seq<u16>)
    requires
        a.len() == b.len(),
    ensures
        forall|k: int| 0 <= k < a.len() ==> (a[k] - b[k]) * (a[k] - b[k]) <= squared_distance(a, b),
        squared_distance(a, b) == squared_distance(b, a),
        squared_distance(a, b) == 0 <==> a == b,
{
    lemma_prefix_terms(a, b, a.len() as int);
    if squared_distance(a, b) == 0 {
        assert(a =~= b);
    }
}

/// The vector stored in lane `l` of a block.
pub open spec fn lane(block: Block, l: int) -> Seq<u16> {
    Seq::new(DIMENSIONS as nat, |d: int| block@[d]@[l])
}

/// The squared distance from `t` to lane `l` of `block`, kept to 32 bits as
/// a wrapping 32-bit accumulator keeps it.
pub open spec fn lane_distance(t: Seq<u16>, block: Block, l: int) -> u32 {
    (squared_distance(t, lane(block, l)) % 0x1_0000_0000) as u32
}

/// Largest square of a difference of two `u16`s.
pub const MAX_SQUARE: u64 = 4294836225;

/// A sum of `n` squared differences of `u16`s is at most `n * MAX_SQUARE`.
pub proof fn lemma_prefix_u16_bound(a: Seq<u16>, b: Seq<u16>, n: int)
    requires
        0 <= n <= a.len(),
        a.len() <= b.len(),
    ensures
        0 <= squared_distance_prefix(a, b, n) <= n * MAX_SQUARE,
{
    assert forall|k: int| 0 <= k < n implies (a[k] - b[k]) * (a[k] - b[k]) <= MAX_SQUARE by {
        let x = a[k];
        let y = b[k];
        assert((x - y) * (x - y) <= 4294836225) by (nonlinear_arith)
            requires
                0 <= x <= 65535,
                0 <= y <= 65535,
        ;
    }
    lemma_prefix_bounds(a, b, n, MAX_SQUARE as int);
}

/// The squared distance from `transaction` to each of the `LANES` vectors of
/// `block`, modulo `2^32`.
pub fn distances_16(transaction: &Vector, block: &Block) -> (out: [u32; LANES])
    ensures
        forall|l: int| 0 <= l < LANES ==> #[trigger] out@[l] == lane_distance(transaction@, *block, l),
{
    let mut acc: [u64; LANES] = [0u64; 16];
    let mut d: usize = 0;
    while d < DIMENSIONS
        invariant
            d <= DIMENSIONS,
            forall|l: int|
                0 <= l < LANES ==> #[trigger] acc@[l] == squared_distance_prefix(
                    transaction@,
                    lane(*block, l),
                    d as int,
                ),
        decreases DIMENSIONS - d,
    {
        let q = transaction[d];
        let row = block[d];
        let mut l: usize = 0;
        while l < LANES
            invariant
                l <= LANES,
                d < DIMENSIONS,
                row == block@[d as int],
                q == transaction@[d as int],
                forall|m: int|
                    0 <= m < l ==> #[trigger] acc@[m] == squared_distance_prefix(
                        transaction@,
                        lane(*block, m),
                        d + 1,
                    ),
                forall|m: int|
                    l <= m < LANES ==> #[trigger] acc@[m] == squared_distance_prefix(
                        transaction@,
                        lane(*block, m),
                        d as int,
                    ),
            decreases LANES - l,
        {
            let v = row[l];
            let diff: u64 = if q >= v {
                (q - v) as u64
            } else {
                (v - q) as u64
            };
            let ghost ln = lane(*block, l as int);
            assert(ln[d as int] == v);
            assert(diff * diff == (q - v) * (q - v) && diff * diff <= MAX_SQUARE) by (nonlinear_arith)
                requires
                    diff == if q >= v { q - v } else { v - q },
                    diff <= 65535,
            ;
            proof {
                lemma_prefix_u16_bound(transaction@, ln, d as int);
                assert(d * (MAX_SQUARE as int) <= 14 * (MAX_SQUARE as int)) by (nonlinear_arith)
                    requires
                        d < 14,
                ;
            }
            acc[l] = acc[l] + diff * diff;
            l = l + 1;
        }
        d = d + 1;
    }
    let mut out: [u32; LANES] = [0u32; 16];
    let mut l: usize = 0;
    while l < LANES
        invariant
            l <= LANES,
            forall|m: int|
                0 <= m < LANES ==> #[trigger] acc@[m] == squared_distance(transaction@, lane(*block, m)),
            forall|m: int| 0 <= m < l ==> #[trigger] out@[m] == lane_distance(transaction@, *block, m),
        decreases LANES - l,
    {
        out[l] = (acc[l] % 0x1_0000_0000) as u32;
        l = l + 1;
    }
    out
}

} // verus!
