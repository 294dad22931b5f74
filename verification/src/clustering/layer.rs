//! The clustering layer's assignment step: map each observation's
//! histogram to its nearest centroid under the earth-mover metric,
//! breaking ties toward the lowest centroid index.

use vstd::prelude::*;
use crate::clustering::histogram::Histogram;
use crate::clustering::histogram::emd;
use crate::clustering::histogram::spec_emd;

verus! {

/// Are all histograms in the slice over `bins` bins with mass small
/// enough for exact distance arithmetic?
pub open spec fn spec_comparable(hs: Seq<Histogram>, bins: int) -> bool {
    forall|k: int|
        0 <= k < hs.len() ==> (#[trigger] hs[k]).weights@.len() == bins && hs[k].spec_mass()
            <= 0x400_0000
}

/// The distance from `p` to centroid `j` of `cs`.
pub open spec fn spec_dist(p: Histogram, cs: Seq<Histogram>, j: int) -> int {
    spec_emd(p.weights@, cs[j].weights@, p.weights@.len() as int)
}

/// The nearest centroid to one histogram: no centroid is strictly
/// closer, and every earlier centroid is strictly farther.
pub fn nearest(point: &Histogram, centroids: &Vec<Histogram>) -> (r: usize)
    requires
        centroids@.len() >= 1,
        point.weights@.len() <= 1024,
        point.spec_mass() <= 0x400_0000,
        spec_comparable(centroids@, point.weights@.len() as int),
    ensures
        r < centroids@.len(),
        forall|j: int|
            0 <= j < centroids@.len() ==> spec_dist(*point, centroids@, r as int)
                <= #[trigger] spec_dist(*point, centroids@, j),
        forall|j: int|
            0 <= j < r ==> #[trigger] spec_dist(*point, centroids@, j) > spec_dist(
                *point,
                centroids@,
                r as int,
            ),
{
    let mut best: usize = 0;
    let mut best_d: u64 = emd(point, &centroids[0]);
    let mut j: usize = 1;
    while j < centroids.len()
        invariant
            1 <= j <= centroids@.len(),
            best < j,
            point.weights@.len() <= 1024,
            point.spec_mass() <= 0x400_0000,
            spec_comparable(centroids@, point.weights@.len() as int),
            best_d == spec_dist(*point, centroids@, best as int),
            forall|k: int|
                0 <= k < j ==> spec_dist(*point, centroids@, best as int) <= #[trigger] spec_dist(
                    *point,
                    centroids@,
                    k,
                ),
            forall|k: int|
                0 <= k < best ==> #[trigger] spec_dist(*point, centroids@, k) > spec_dist(
                    *point,
                    centroids@,
                    best as int,
                ),
        decreases centroids@.len() - j,
    {
        let d = emd(point, &centroids[j]);
        if d < best_d {
            best = j;
            best_d = d;
        }
        j = j + 1;
    }
    best
}

/// One assignment pass of the clustering iteration: each histogram
/// goes to its nearest centroid, ties broken toward the lowest index.
pub fn kmeans_assign(points: &Vec<Histogram>, centroids: &Vec<Histogram>, bins: usize) -> (r: Vec<
    usize,
>)
    requires
        centroids@.len() >= 1,
        bins <= 1024,
        spec_comparable(points@, bins as int),
        spec_comparable(centroids@, bins as int),
    ensures
        r@.len() == points@.len(),
        forall|k: int|
            0 <= k < points@.len() ==> {
                &&& (#[trigger] r@[k]) < centroids@.len()
                &&& forall|j: int|
                    0 <= j < centroids@.len() ==> spec_dist(points@[k], centroids@, r@[k] as int)
                        <= #[trigger] spec_dist(points@[k], centroids@, j)
                &&& forall|j: int|
                    0 <= j < r@[k] ==> #[trigger] spec_dist(points@[k], centroids@, j) > spec_dist(
                        points@[k],
                        centroids@,
                        r@[k] as int,
                    )
            },
{
    let mut out: Vec<usize> = Vec::new();
    let mut k: usize = 0;
    while k < points.len()
        invariant
            k <= points@.len(),
            out@.len() == k,
            centroids@.len() >= 1,
            bins <= 1024,
            spec_comparable(points@, bins as int),
            spec_comparable(centroids@, bins as int),
            forall|kk: int|
                0 <= kk < k ==> {
                    &&& (#[trigger] out@[kk]) < centroids@.len()
                    &&& forall|j: int|
                        0 <= j < centroids@.len() ==> spec_dist(
                            points@[kk],
                            centroids@,
                            out@[kk] as int,
                        ) <= #[trigger] spec_dist(points@[kk], centroids@, j)
                    &&& forall|j: int|
                        0 <= j < out@[kk] ==> #[trigger] spec_dist(points@[kk], centroids@, j)
                            > spec_dist(points@[kk], centroids@, out@[kk] as int)
                },
        decreases points@.len() - k,
    {
        let r = nearest(&points[k], centroids);
        out.push(r);
        k = k + 1;
    }
    out
}


/// Are all histograms over `bins` bins and light enough that a squared
/// distance still fits a word?
pub open spec fn spec_light(hs: Seq<Histogram>, bins: int) -> bool {
    forall|k: int|
        0 <= k < hs.len() ==> (#[trigger] hs[k]).weights@.len() == bins && hs[k].spec_mass()
            <= 0x1000
}

/// Is `v` the squared distance from `p` to its nearest centroid?
pub open spec fn spec_seed_weight(p: Histogram, cs: Seq<Histogram>, v: int) -> bool {
    exists|j: int|
        0 <= j < cs.len() && v == #[trigger] spec_dist(p, cs, j) * spec_dist(p, cs, j) && (forall|
            j2: int,
        |
            0 <= j2 < cs.len() ==> spec_dist(p, cs, j) <= #[trigger] spec_dist(p, cs, j2))
}

/// The seeding weights of one round of choosing initial centroids:
/// each observation is weighted by its squared distance to the nearest
/// centroid already chosen. The caller samples an index from these
/// weights with its own randomness.
pub fn kmeanspp_weights(points: &Vec<Histogram>, chosen: &Vec<Histogram>, bins: usize) -> (w: Vec<
    u64,
>)
    requires
        chosen@.len() >= 1,
        bins <= 64,
        spec_light(points@, bins as int),
        spec_light(chosen@, bins as int),
    ensures
        w@.len() == points@.len(),
        forall|k: int|
            0 <= k < points@.len() ==> spec_seed_weight(points@[k], chosen@, #[trigger] w@[k] as int),
{
    let mut out: Vec<u64> = Vec::new();
    let mut k: usize = 0;
    proof {
        assert(spec_comparable(points@, bins as int));
        assert(spec_comparable(chosen@, bins as int));
    }
    while k < points.len()
        invariant
            k <= points@.len(),
            out@.len() == k,
            chosen@.len() >= 1,
            bins <= 64,
            spec_light(points@, bins as int),
            spec_light(chosen@, bins as int),
            spec_comparable(points@, bins as int),
            spec_comparable(chosen@, bins as int),
            forall|kk: int|
                0 <= kk < k ==> spec_seed_weight(points@[kk], chosen@, #[trigger] out@[kk] as int),
        decreases points@.len() - k,
    {
        let j = nearest(&points[k], chosen);
        let d = emd(&points[k], &chosen[j]);
        proof {
            assert(points@[k as int].weights@.len() == bins);
            assert(chosen@[j as int].weights@.len() == bins);
            crate::clustering::histogram::lemma_sum_mass_prefix(
                points@[k as int].weights@,
                0,
                bins as int,
            );
            crate::clustering::histogram::lemma_sum_mass_prefix(
                chosen@[j as int].weights@,
                0,
                bins as int,
            );
            crate::clustering::histogram::lemma_emd_bound(
                points@[k as int].weights@,
                chosen@[j as int].weights@,
                bins as int,
                points@[k as int].spec_mass(),
                chosen@[j as int].spec_mass(),
            );
            assert((bins as int) * (points@[k as int].spec_mass() * chosen@[j as int].spec_mass())
                <= 64 * (0x1000 * 0x1000)) by (nonlinear_arith)
                requires
                    bins as int <= 64,
                    0 <= points@[k as int].spec_mass() <= 0x1000,
                    0 <= chosen@[j as int].spec_mass() <= 0x1000,
            ;
            crate::clustering::histogram::lemma_emd_nonneg(
                points@[k as int].weights@,
                chosen@[j as int].weights@,
                bins as int,
            );
            assert((d as int) * (d as int) <= 0x4000_0000 * 0x4000_0000) by (nonlinear_arith)
                requires
                    0 <= d as int <= 0x4000_0000,
            ;
        }
        let sq = d * d;
        out.push(sq);
        proof {
            assert(d == spec_dist(points@[k as int], chosen@, j as int));
            assert(sq as int == spec_dist(points@[k as int], chosen@, j as int) * spec_dist(
                points@[k as int],
                chosen@,
                j as int,
            ));
            assert(spec_seed_weight(points@[k as int], chosen@, sq as int));
        }
        k = k + 1;
    }
    out
}


/// One bin of the pointwise sum of the points assigned to centroid `j`,
/// over the first `upto` points.
pub open spec fn spec_bin_sum(
    points: Seq<Histogram>,
    assign: Seq<usize>,
    j: int,
    bin: int,
    upto: int,
) -> int
    decreases upto,
{
    if upto <= 0 {
        0
    } else {
        spec_bin_sum(points, assign, j, bin, upto - 1) + if assign[upto - 1] == j {
            points[upto - 1].weights@[bin] as int
        } else {
            0int
        }
    }
}

/// How many points the assignment sends to centroid `j`, over the
/// first `upto` points.
pub open spec fn spec_assigned(assign: Seq<usize>, j: int, upto: int) -> int
    decreases upto,
{
    if upto <= 0 {
        0
    } else {
        spec_assigned(assign, j, upto - 1) + if assign[upto - 1] == j {
            1int
        } else {
            0int
        }
    }
}

/// No bin of a light histogram outweighs its whole mass.
proof fn lemma_bin_le_mass(w: Seq<u64>, bin: int)
    requires
        0 <= bin < w.len(),
    ensures
        w[bin] <= crate::clustering::histogram::sum_mass(w, w.len() as int),
{
    crate::clustering::histogram::lemma_sum_mass_prefix(w, 0, bin);
    crate::clustering::histogram::lemma_sum_mass_prefix(w, bin + 1, w.len() as int);
}

/// A bin sum over light points stays small.
proof fn lemma_bin_sum_bound(
    points: Seq<Histogram>,
    assign: Seq<usize>,
    j: int,
    bin: int,
    upto: int,
    bins: int,
)
    requires
        0 <= bin < bins,
        0 <= upto <= points.len(),
        spec_light(points, bins),
    ensures
        0 <= spec_bin_sum(points, assign, j, bin, upto) <= upto * 0x1000,
    decreases upto,
{
    if upto > 0 {
        lemma_bin_sum_bound(points, assign, j, bin, upto - 1, bins);
        lemma_bin_le_mass(points[upto - 1].weights@, bin);
        assert(upto * 0x1000 == (upto - 1) * 0x1000 + 0x1000) by (nonlinear_arith);
    }
}

/// Copy a histogram.
fn duplicate(h: &Histogram) -> (r: Histogram)
    ensures
        r.weights@ == h.weights@,
{
    let mut w: Vec<u64> = Vec::new();
    let mut k: usize = 0;
    while k < h.weights.len()
        invariant
            k <= h.weights@.len(),
            w@.len() == k,
            forall|b: int| 0 <= b < k ==> w@[b] == h.weights@[b],
        decreases h.weights@.len() - k,
    {
        w.push(h.weights[k]);
        k = k + 1;
    }
    proof {
        assert(w@ =~= h.weights@);
    }
    Histogram { weights: w }
}

/// One Lloyd update: each centroid becomes the pointwise sum of the
/// points assigned to it; a centroid with no assigned point keeps its
/// old histogram. Normalization is never needed: the earth-mover
/// metric cross-scales by total mass.
pub fn lloyd_step(
    points: &Vec<Histogram>,
    centroids: &Vec<Histogram>,
    assign: &Vec<usize>,
    bins: usize,
) -> (next: Vec<Histogram>)
    requires
        bins <= 64,
        spec_light(points@, bins as int),
        spec_light(centroids@, bins as int),
        assign@.len() == points@.len(),
        points@.len() <= 0x10_0000,
    ensures
        next@.len() == centroids@.len(),
        forall|j: int|
            0 <= j < centroids@.len() ==> {
                &&& spec_assigned(assign@, j, points@.len() as int) == 0 ==> (
                #[trigger] next@[j]).weights@ == centroids@[j].weights@
                &&& spec_assigned(assign@, j, points@.len() as int) > 0 ==> {
                    &&& next@[j].weights@.len() == bins
                    &&& forall|bin: int|
                        0 <= bin < bins ==> (#[trigger] next@[j].weights@[bin]) == spec_bin_sum(
                            points@,
                            assign@,
                            j,
                            bin,
                            points@.len() as int,
                        )
                }
            },
{
    let mut next: Vec<Histogram> = Vec::new();
    let mut j: usize = 0;
    while j < centroids.len()
        invariant
            j <= centroids@.len(),
            next@.len() == j,
            bins <= 64,
            spec_light(points@, bins as int),
            spec_light(centroids@, bins as int),
            assign@.len() == points@.len(),
            points@.len() <= 0x10_0000,
            forall|jj: int|
                0 <= jj < j ==> {
                    &&& spec_assigned(assign@, jj, points@.len() as int) == 0 ==> (
                    #[trigger] next@[jj]).weights@ == centroids@[jj].weights@
                    &&& spec_assigned(assign@, jj, points@.len() as int) > 0 ==> {
                        &&& next@[jj].weights@.len() == bins
                        &&& forall|bin: int|
                            0 <= bin < bins ==> (#[trigger] next@[jj].weights@[bin])
                                == spec_bin_sum(points@, assign@, jj, bin, points@.len() as int)
                    }
                },
        decreases centroids@.len() - j,
    {
        let mut acc = Histogram::new(bins);
        let mut hit: usize = 0;
        let mut k: usize = 0;
        while k < points.len()
            invariant
                k <= points@.len(),
                j < centroids@.len(),
                bins <= 64,
                spec_light(points@, bins as int),
                assign@.len() == points@.len(),
                points@.len() <= 0x10_0000,
                acc.weights@.len() == bins,
                hit == spec_assigned(assign@, j as int, k as int),
                hit <= k,
                forall|bin: int|
                    0 <= bin < bins ==> (#[trigger] acc.weights@[bin]) == spec_bin_sum(
                        points@,
                        assign@,
                        j as int,
                        bin,
                        k as int,
                    ),
            decreases points@.len() - k,
        {
            if assign[k] == j {
                proof {
                    assert forall|bin: int|
                        0 <= bin < bins implies (#[trigger] acc.weights@[bin])
                            + points@[k as int].weights@[bin] <= u64::MAX by {
                        lemma_bin_sum_bound(points@, assign@, j as int, bin, k as int, bins as int);
                        lemma_bin_le_mass(points@[k as int].weights@, bin);
                        assert((k as int) * 0x1000 <= 0x10_0000 * 0x1000) by (nonlinear_arith)
                            requires
                                0 <= k as int <= 0x10_0000,
                        ;
                    }
                }
                acc.absorb(&points[k]);
                hit = hit + 1;
            }
            k = k + 1;
        }
        if hit == 0 {
            next.push(duplicate(&centroids[j]));
        } else {
            next.push(acc);
        }
        j = j + 1;
    }
    next
}

} // verus!
