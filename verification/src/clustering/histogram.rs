//! Histograms over child buckets, and the earth-mover distance between
//! them. Distances are exact integers: the cumulative-mass differences
//! are cross-scaled by the two totals instead of normalizing to floats.

use vstd::prelude::*;

verus! {

/// A distribution over child bins: one weight per bin index.
#[derive(Debug, Clone, PartialEq, Eq)]
pub struct Histogram {
    pub weights: Vec<u64>,
}

/// The total mass of the first `k` bins.
pub open spec fn sum_mass(w: Seq<u64>, k: int) -> int
    decreases k,
{
    if k <= 0 {
        0
    } else {
        sum_mass(w, k - 1) + w[k - 1]
    }
}

/// Mass sums are monotone in the prefix.
pub proof fn lemma_sum_mass_prefix(w: Seq<u64>, k1: int, k2: int)
    requires
        0 <= k1 <= k2,
    ensures
        sum_mass(w, k1) <= sum_mass(w, k2),
        sum_mass(w, k2) >= 0,
    decreases k2,
{
    if k1 < k2 {
        lemma_sum_mass_prefix(w, k1, k2 - 1);
    } else if k2 > 0 {
        lemma_sum_mass_prefix(w, 0, k2 - 1);
    }
}

impl Histogram {
    /// The number of bins.
    pub open spec fn spec_bins(self) -> int {
        self.weights@.len() as int
    }

    /// The total mass.
    pub open spec fn spec_mass(self) -> int {
        sum_mass(self.weights@, self.spec_bins())
    }

    /// An empty histogram over `bins` bins.
    pub fn new(bins: usize) -> (h: Histogram)
        ensures
            h.weights@.len() == bins,
            forall|k: int| 0 <= k < bins ==> h.weights@[k] == 0,
    {
        let mut w: Vec<u64> = Vec::new();
        let mut k: usize = 0;
        while k < bins
            invariant
                k <= bins,
                w@.len() == k,
                forall|j: int| 0 <= j < k ==> w@[j] == 0,
            decreases bins - k,
        {
            w.push(0);
            k = k + 1;
        }
        Histogram { weights: w }
    }

    /// Add one unit of mass to a bin.
    pub fn tally(&mut self, bin: usize)
        requires
            bin < old(self).weights@.len(),
            old(self).weights@[bin as int] < u64::MAX,
        ensures
            final(self).weights@ == old(self).weights@.update(
                bin as int,
                (old(self).weights@[bin as int] + 1) as u64,
            ),
    {
        let next = self.weights[bin] + 1;
        vstd::pervasive::VecAdditionalExecFns::set(&mut self.weights, bin, next);
    }

    /// Pointwise-add another histogram over the same bins.
    pub fn absorb(&mut self, other: &Histogram)
        requires
            old(self).weights@.len() == other.weights@.len(),
            forall|k: int|
                0 <= k < other.weights@.len() ==> (#[trigger] old(self).weights@[k]) + (
                #[trigger] other.weights@[k]) <= u64::MAX,
        ensures
            final(self).weights@.len() == old(self).weights@.len(),
            forall|k: int|
                0 <= k < other.weights@.len() ==> (#[trigger] final(self).weights@[k]) == old(self).weights@[k] + other.weights@[k],
    {
        let mut k: usize = 0;
        while k < self.weights.len()
            invariant
                k <= self.weights@.len(),
                self.weights@.len() == old(self).weights@.len(),
                other.weights@.len() == old(self).weights@.len(),
                forall|j: int|
                    0 <= j < other.weights@.len() ==> (#[trigger] old(self).weights@[j]) + (
                    #[trigger] other.weights@[j]) <= u64::MAX,
                forall|j: int|
                    0 <= j < k ==> (#[trigger] self.weights@[j]) == old(self).weights@[j]
                        + other.weights@[j],
                forall|j: int|
                    k <= j < self.weights@.len() ==> (#[trigger] self.weights@[j]) == old(self).weights@[j],
            decreases self.weights@.len() - k,
        {
            let next = self.weights[k] + other.weights[k];
            vstd::pervasive::VecAdditionalExecFns::set(&mut self.weights, k, next);
            k = k + 1;
        }
    }

    /// Drop all mass, keeping the bin space.
    pub fn clear(&mut self)
        ensures
            final(self).weights@.len() == old(self).weights@.len(),
            forall|k: int| 0 <= k < final(self).weights@.len() ==> (#[trigger] final(self).weights@[k]) == 0,
    {
        let n = self.weights.len();
        let mut w: Vec<u64> = Vec::new();
        let mut k: usize = 0;
        while k < n
            invariant
                k <= n,
                w@.len() == k,
                self.weights@.len() == n,
                forall|j: int| 0 <= j < k ==> w@[j] == 0,
            decreases n - k,
        {
            w.push(0);
            k = k + 1;
        }
        self.weights = w;
    }
}

/// One term of the earth-mover sum: the cross-scaled cumulative masses
/// of the two histograms after bin `k`, compared absolutely.
pub open spec fn emd_term(p: Seq<u64>, q: Seq<u64>, k: int) -> int {
    let a = sum_mass(p, k) * sum_mass(q, q.len() as int);
    let b = sum_mass(q, k) * sum_mass(p, p.len() as int);
    if a >= b {
        a - b
    } else {
        b - a
    }
}

/// The earth-mover distance over the first `k` bins.
pub open spec fn spec_emd(p: Seq<u64>, q: Seq<u64>, k: int) -> int
    decreases k,
{
    if k <= 0 {
        0
    } else {
        spec_emd(p, q, k - 1) + emd_term(p, q, k)
    }
}

/// The earth-mover sum reads the two histograms symmetrically.
pub proof fn lemma_emd_symmetric(p: Seq<u64>, q: Seq<u64>, k: int)
    ensures
        spec_emd(p, q, k) == spec_emd(q, p, k),
    decreases k,
{
    if k > 0 {
        lemma_emd_symmetric(p, q, k - 1);
    }
}

/// The earth-mover sum is never negative.
pub proof fn lemma_emd_nonneg(p: Seq<u64>, q: Seq<u64>, k: int)
    ensures
        spec_emd(p, q, k) >= 0,
    decreases k,
{
    if k > 0 {
        lemma_emd_nonneg(p, q, k - 1);
    }
}

/// A histogram is at no distance from itself.
pub proof fn lemma_emd_self(p: Seq<u64>, k: int)
    ensures
        spec_emd(p, p, k) == 0,
    decreases k,
{
    if k > 0 {
        lemma_emd_self(p, k - 1);
    }
}

/// Every earth-mover term is bounded by the product of the two masses.
pub proof fn lemma_emd_bound(p: Seq<u64>, q: Seq<u64>, k: int, mp: int, mq: int)
    requires
        0 <= mp <= 0x400_0000,
        0 <= mq <= 0x400_0000,
        sum_mass(p, p.len() as int) == mp,
        sum_mass(q, q.len() as int) == mq,
        0 <= k <= p.len(),
        k <= q.len(),
    ensures
        spec_emd(p, q, k) <= k * (mp * mq),
    decreases k,
{
    if k > 0 {
        lemma_emd_bound(p, q, k - 1, mp, mq);
        lemma_sum_mass_prefix(p, k, p.len() as int);
        lemma_sum_mass_prefix(q, k, q.len() as int);
        lemma_sum_mass_prefix(p, 0, k);
        lemma_sum_mass_prefix(q, 0, k);
        assert(emd_term(p, q, k) <= mp * mq) by (nonlinear_arith)
            requires
                0 <= sum_mass(p, k) <= mp <= 0x400_0000,
                0 <= sum_mass(q, k) <= mq <= 0x400_0000,
                sum_mass(p, p.len() as int) == mp,
                sum_mass(q, q.len() as int) == mq,
                emd_term(p, q, k) == if sum_mass(p, k) * sum_mass(q, q.len() as int) >= sum_mass(
                    q,
                    k,
                ) * sum_mass(p, p.len() as int) {
                    sum_mass(p, k) * sum_mass(q, q.len() as int) - sum_mass(q, k) * sum_mass(
                        p,
                        p.len() as int,
                    )
                } else {
                    sum_mass(q, k) * sum_mass(p, p.len() as int) - sum_mass(p, k) * sum_mass(
                        q,
                        q.len() as int,
                    )
                },
        ;
        assert(k * (mp * mq) == (k - 1) * (mp * mq) + mp * mq) by (nonlinear_arith);
    }
}

/// The total mass of a histogram, as a word.
pub fn mass(h: &Histogram) -> (r: u64)
    requires
        h.spec_mass() <= 0x400_0000,
    ensures
        r == h.spec_mass(),
{
    let mut acc: u64 = 0;
    let mut k: usize = 0;
    while k < h.weights.len()
        invariant
            k <= h.weights@.len(),
            acc == sum_mass(h.weights@, k as int),
            sum_mass(h.weights@, h.weights@.len() as int) <= 0x400_0000,
        decreases h.weights@.len() - k,
    {
        proof {
            lemma_sum_mass_prefix(h.weights@, k as int + 1, h.weights@.len() as int);
            lemma_sum_mass_prefix(h.weights@, 0, k as int + 1);
        }
        acc = acc + h.weights[k];
        k = k + 1;
    }
    acc
}

/// The earth-mover distance between two histograms over the same bins:
/// the absolute differences of their cross-scaled cumulative masses,
/// summed bin by bin. Dividing by the product of the two masses would
/// normalize it; the raw integer keeps every comparison exact.
///
/// The distance is symmetric, zero from a histogram to itself, and
/// never negative; the three lemmas above state those laws.
pub fn emd(p: &Histogram, q: &Histogram) -> (r: u64)
    requires
        p.weights@.len() == q.weights@.len(),
        p.weights@.len() <= 1024,
        p.spec_mass() <= 0x400_0000,
        q.spec_mass() <= 0x400_0000,
    ensures
        r == spec_emd(p.weights@, q.weights@, p.weights@.len() as int),
{
    let total_p = mass(p);
    let total_q = mass(q);
    let n = p.weights.len();
    let mut acc: u64 = 0;
    let mut cum_p: u64 = 0;
    let mut cum_q: u64 = 0;
    let mut k: usize = 0;
    while k < n
        invariant
            k <= n,
            n == p.weights@.len(),
            n == q.weights@.len(),
            n <= 1024,
            total_p == p.spec_mass(),
            total_q == q.spec_mass(),
            p.spec_mass() <= 0x400_0000,
            q.spec_mass() <= 0x400_0000,
            cum_p == sum_mass(p.weights@, k as int),
            cum_q == sum_mass(q.weights@, k as int),
            acc == spec_emd(p.weights@, q.weights@, k as int),
        decreases n - k,
    {
        proof {
            lemma_sum_mass_prefix(p.weights@, k as int + 1, n as int);
            lemma_sum_mass_prefix(q.weights@, k as int + 1, n as int);
            lemma_sum_mass_prefix(p.weights@, 0, k as int + 1);
            lemma_sum_mass_prefix(q.weights@, 0, k as int + 1);
            lemma_emd_bound(p.weights@, q.weights@, k as int + 1, p.spec_mass(), q.spec_mass());
            lemma_emd_nonneg(p.weights@, q.weights@, k as int);
            assert((k as int + 1) * (p.spec_mass() * q.spec_mass()) <= 1024
                * 0x10_0000_0000_0000) by (nonlinear_arith)
                requires
                    k as int + 1 <= 1024,
                    0 <= p.spec_mass() <= 0x400_0000,
                    0 <= q.spec_mass() <= 0x400_0000,
            ;
            assert(sum_mass(p.weights@, k as int + 1) * sum_mass(q.weights@, n as int)
                <= 0x400_0000 * 0x400_0000) by (nonlinear_arith)
                requires
                    0 <= sum_mass(p.weights@, k as int + 1) <= 0x400_0000,
                    0 <= sum_mass(q.weights@, n as int) <= 0x400_0000,
            ;
            assert(sum_mass(q.weights@, k as int + 1) * sum_mass(p.weights@, n as int)
                <= 0x400_0000 * 0x400_0000) by (nonlinear_arith)
                requires
                    0 <= sum_mass(q.weights@, k as int + 1) <= 0x400_0000,
                    0 <= sum_mass(p.weights@, n as int) <= 0x400_0000,
            ;
        }
        cum_p = cum_p + p.weights[k];
        cum_q = cum_q + q.weights[k];
        let a = cum_p * total_q;
        let b = cum_q * total_p;
        let term = if a >= b {
            a - b
        } else {
            b - a
        };
        acc = acc + term;
        k = k + 1;
    }
    acc
}

} // verus!
