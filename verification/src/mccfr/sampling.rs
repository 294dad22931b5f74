//! The three external-sampling modes, as decision functions: the
//! caller draws the random number, the library fixes exactly which
//! branch it selects. At the walker's own nodes every choice edge is
//! taken, so no decision function is needed there.

use vstd::prelude::*;

verus! {

/// The total weight of the first `k` entries.
pub open spec fn spec_cum(w: Seq<u64>, k: int) -> int
    decreases k,
{
    if k <= 0 {
        0
    } else {
        spec_cum(w, k - 1) + w[k - 1]
    }
}

/// Cumulative weights are monotone in the prefix.
pub proof fn lemma_cum_prefix(w: Seq<u64>, k1: int, k2: int)
    requires
        0 <= k1 <= k2,
    ensures
        spec_cum(w, k1) <= spec_cum(w, k2),
        spec_cum(w, k2) >= 0,
    decreases k2,
{
    if k1 < k2 {
        lemma_cum_prefix(w, k1, k2 - 1);
    } else if k2 > 0 {
        lemma_cum_prefix(w, 0, k2 - 1);
    }
}

/// The chance edge a uniform draw selects: the draw reduced to the
/// branch count.
pub fn explore_any_index(draw: u64, n: usize) -> (i: usize)
    requires
        n >= 1,
    ensures
        i == draw as int % n as int,
{
    (draw % (n as u64)) as usize
}

/// The opponent edge a weighted draw selects: the unique index whose
/// cumulative-weight window contains the draw reduced to the total
/// weight. An edge of zero weight is never selected.
pub fn explore_one_index(draw: u64, weights: &Vec<u64>) -> (i: usize)
    requires
        weights@.len() >= 1,
        spec_cum(weights@, weights@.len() as int) >= 1,
        spec_cum(weights@, weights@.len() as int) <= 0xFFFF_FFFF_FFFF,
    ensures
        i < weights@.len(),
        spec_cum(weights@, i as int) <= draw as int % spec_cum(
            weights@,
            weights@.len() as int,
        ) < spec_cum(weights@, i as int + 1),
        weights@[i as int] >= 1,
{
    let n = weights.len();
    let mut total: u64 = 0;
    let mut k: usize = 0;
    while k < n
        invariant
            k <= n,
            n == weights@.len(),
            total == spec_cum(weights@, k as int),
            spec_cum(weights@, n as int) <= 0xFFFF_FFFF_FFFF,
        decreases n - k,
    {
        proof {
            lemma_cum_prefix(weights@, k as int + 1, n as int);
            lemma_cum_prefix(weights@, 0, k as int + 1);
        }
        total = total + weights[k];
        k = k + 1;
    }
    let d = draw % total;
    let mut acc: u64 = 0;
    let mut i: usize = 0;
    while i < n
        invariant
            i <= n,
            n == weights@.len(),
            acc == spec_cum(weights@, i as int),
            total == spec_cum(weights@, n as int),
            1 <= total <= 0xFFFF_FFFF_FFFF,
            d == draw as int % total as int,
            acc <= d < total,
        decreases n - i,
    {
        proof {
            lemma_cum_prefix(weights@, i as int + 1, n as int);
            lemma_cum_prefix(weights@, 0, i as int + 1);
        }
        if d < acc + weights[i] {
            return i;
        }
        acc = acc + weights[i];
        i = i + 1;
    }
    proof {
        assert(false);
    }
    0
}

} // verus!
