//! The regret/policy store and its discounted-CFR updates, in exact
//! fixed-point arithmetic: one probability unit is `POLICY_SCALE`
//! milli-units, and utilities are carried in the same grain.

use vstd::prelude::*;
use crate::mccfr::bucket::Bucket;
use crate::mccfr::data::Player;
use crate::mccfr::edge::Edge;

verus! {

/// One whole unit of probability, in milli-units.
pub const POLICY_SCALE: u32 = 1000;

/// The floor a cumulative regret is lifted to when matching policies.
pub const POLICY_MIN: i32 = 1;

/// The lowest stored regret.
pub const REGRET_MIN: i32 = -300000000;

/// The highest stored regret.
pub const REGRET_MAX: i32 = 300000000;

/// Epochs during which the regret discount schedule applies.
pub const CFR_DISCOUNT_PHASE: usize = 100000;

/// Epochs after which pruning may begin.
pub const CFR_PRUNING_PHASE: usize = 200000;

/// What the learner does with regret at a given epoch.
#[derive(Debug, Clone, Copy, PartialEq, Eq, Structural)]
pub enum Phase {
    Discount,
    Explore,
    Prune,
}

/// The phase an epoch falls in.
pub open spec fn spec_phase(epochs: int) -> Phase {
    if epochs < CFR_DISCOUNT_PHASE {
        Phase::Discount
    } else if epochs < CFR_PRUNING_PHASE {
        Phase::Explore
    } else {
        Phase::Prune
    }
}

/// The stored state for one edge of one information set.
#[derive(Debug, Clone, Copy, PartialEq, Eq, Structural)]
pub struct Decision {
    pub regret: i32,
    pub policy: u32,
}

/// One stored edge with its decision.
#[derive(Debug, Clone, Copy, PartialEq, Eq, Structural)]
pub struct DecisionEntry {
    pub edge: Edge,
    pub decision: Decision,
}

/// The strategy stored for one information set.
#[derive(Debug, Clone, PartialEq, Eq)]
pub struct BucketStrategy {
    pub bucket: Bucket,
    pub edges: Vec<DecisionEntry>,
}

/// The floor of the exact integer square root.
pub open spec fn spec_isqrt(x: int) -> int {
    choose|r: int| 0 <= r && #[trigger] (r * r) <= x && (r + 1) * (r + 1) > x
}

/// Only one integer can be the floor of a square root.
pub proof fn lemma_isqrt_unique(a: int, b: int, x: int)
    requires
        0 <= a,
        a * a <= x,
        (a + 1) * (a + 1) > x,
        0 <= b,
        b * b <= x,
        (b + 1) * (b + 1) > x,
    ensures
        a == b,
{
    assert(a < b ==> (a + 1) * (a + 1) <= b * b) by (nonlinear_arith)
        requires
            0 <= a,
            0 <= b,
    ;
    assert(b < a ==> (b + 1) * (b + 1) <= a * a) by (nonlinear_arith)
        requires
            0 <= a,
            0 <= b,
    ;
}

/// The floor of the exact integer square root.
pub fn isqrt(x: u64) -> (r: u64)
    ensures
        (r as int) * (r as int) <= x,
        (r as int + 1) * (r as int + 1) > x,
        r == spec_isqrt(x as int),
{
    let mut r: u64 = 0;
    while square(r + 1) <= x as u128
        invariant
            (r as int) * (r as int) <= x,
            r <= x,
            r <= 0x1_0000_0000,
        decreases x - r,
    {
        proof {
            assert((r as int + 1) * (r as int + 1) > r as int) by (nonlinear_arith);
            assert(r as int + 1 <= 0x1_0000_0000) by (nonlinear_arith)
                requires
                    (r as int + 1) * (r as int + 1) <= x as int,
                    x <= 0xFFFF_FFFF_FFFF_FFFF,
            ;
        }
        r = r + 1;
    }
    proof {
        let w = spec_isqrt(x as int);
        assert(0 <= w && w * w <= x && (w + 1) * (w + 1) > x) by {
            assert(0 <= r as int && (r as int) * (r as int) <= x && (r as int + 1) * (r as int + 1)
                > x);
        }
        lemma_isqrt_unique(r as int, w, x as int);
    }
    r
}

/// The square of a word, widened so it cannot overflow.
fn square(a: u64) -> (r: u128)
    requires
        a <= 0x2_0000_0000,
    ensures
        r == (a as int) * (a as int),
{
    proof {
        assert((a as int) * (a as int) <= 0x2_0000_0000 * 0x2_0000_0000) by (nonlinear_arith)
            requires
                a <= 0x2_0000_0000,
        ;
    }
    (a as u128) * (a as u128)
}

/// The DCFR discount schedule with `alpha = 3/2`, `omega = 1/2` and
/// `gamma = 2`, carried as exact rationals. The fractional powers use
/// the integer square root, so every factor is reproducible.
#[derive(Debug, Clone, Copy, PartialEq, Eq, Structural)]
pub struct Discount {
    pub period: u64,
}

impl Discount {
    /// The default schedule: every epoch discounts.
    pub fn new() -> (d: Discount)
        ensures
            d.period == 1,
    {
        Discount { period: 1 }
    }

    /// The policy discount `(t / (t + 1))^2` as a rational.
    pub fn policy(&self, t: u64) -> (r: (u64, u64))
        requires
            t < 0xFFFF_FFFF,
        ensures
            r.0 == (t as int) * (t as int),
            r.1 == (t as int + 1) * (t as int + 1),
            r.1 > 0,
            r.0 < r.1,
    {
        proof {
            assert((t as int) * (t as int) < (t as int + 1) * (t as int + 1) <= 0xFFFF_FFFF
                * 0xFFFF_FFFF) by (nonlinear_arith)
                requires
                    t < 0xFFFF_FFFF,
            ;
        }
        (t * t, (t + 1) * (t + 1))
    }

    /// The regret discount `x / (x + 1)` as a rational, keyed by the
    /// stored regret's sign: `x = floor(t^(3/2))` for positive regret,
    /// `x = floor(t^(1/2))` for negative; off-period epochs and zero
    /// regret discount by one.
    pub fn regret(&self, t: u64, regret: i32) -> (r: (u64, u64))
        requires
            self.period >= 1,
            t < 0xFFFF_FFFF,
        ensures
            r.1 > 0,
            r.0 <= r.1,
            r.0 < 0x1_0000_0000_0000,
            r.1 <= 0x1_0000_0000_0000,
            t % self.period == 0 ==> (r.0 as int, r.1 as int) == spec_regret_factor(
                t as int,
                regret as int,
            ),
            t % self.period != 0 ==> r == (1u64, 1u64),
    {
        if t % self.period != 0 {
            (1, 1)
        } else if regret > 0 {
            let x = isqrt_cube(t);
            (x, x + 1)
        } else if regret < 0 {
            let x = isqrt(t);
            proof {
                lemma_isqrt_le(t, x);
            }
            (x, x + 1)
        } else {
            (1, 1)
        }
    }
}

/// The floor of `t^(3/2)`: the integer square root of the cube, found
/// by binary search so large epochs stay cheap.
fn isqrt_cube(t: u64) -> (r: u64)
    requires
        t < 0xFFFF_FFFF,
    ensures
        r == spec_isqrt((t as int) * (t as int) * (t as int)),
        r < 0x1_0000_0000_0000,
{
    proof {
        assert((t as int) * (t as int) <= 0xFFFF_FFFE * 0xFFFF_FFFE) by (nonlinear_arith)
            requires
                t <= 0xFFFF_FFFE,
        ;
        assert(((t as int) * (t as int)) * (t as int) <= (0xFFFF_FFFE * 0xFFFF_FFFE)
            * 0xFFFF_FFFE) by (nonlinear_arith)
            requires
                t <= 0xFFFF_FFFE,
                (t as int) * (t as int) <= 0xFFFF_FFFE * 0xFFFF_FFFE,
        ;
        assert((t as int) * (t as int) * (t as int) < 0x1_0000_0000_0000 * 0x1_0000_0000_0000);
    }
    let x: u128 = (t as u128) * (t as u128) * (t as u128);
    let mut lo: u64 = 0;
    let mut hi: u64 = 0xFFFF_FFFF_FFFF;
    proof {
        assert((0x1_0000_0000_0000u128) * (0x1_0000_0000_0000u128) > x);
    }
    while lo < hi
        invariant
            lo <= hi <= 0xFFFF_FFFF_FFFF,
            (lo as int) * (lo as int) <= x,
            (hi as int + 1) * (hi as int + 1) > x,
        decreases hi - lo,
    {
        let mid = lo + (hi - lo + 1) / 2;
        proof {
            assert(lo < mid <= hi);
        }
        if square128(mid) <= x {
            lo = mid;
        } else {
            hi = mid - 1;
        }
    }
    proof {
        let w = spec_isqrt(x as int);
        assert(0 <= w && w * w <= x && (w + 1) * (w + 1) > x) by {
            assert(0 <= lo as int && (lo as int) * (lo as int) <= x && (lo as int + 1) * (lo as int
                + 1) > x);
        }
        lemma_isqrt_unique(lo as int, w, x as int);
        assert((lo as int) * (lo as int) < 0x1_0000_0000_0000 * 0x1_0000_0000_0000 ==> lo
            < 0x1_0000_0000_0000) by (nonlinear_arith);
    }
    lo
}

/// The square of a word, widened past overflow.
fn square128(a: u64) -> (r: u128)
    ensures
        r == (a as int) * (a as int),
{
    proof {
        assert((a as int) * (a as int) <= 0xFFFF_FFFF_FFFF_FFFF * 0xFFFF_FFFF_FFFF_FFFF)
            by (nonlinear_arith)
            requires
                a <= 0xFFFF_FFFF_FFFF_FFFF,
        ;
    }
    (a as u128) * (a as u128)
}

/// An integer square root is no larger than its argument.
proof fn lemma_isqrt_le(t: u64, root: u64)
    requires
        (root as int) * (root as int) <= t,
    ensures
        root <= t,
{
    assert(root > t ==> (root as int) * (root as int) > t) by (nonlinear_arith);
}

/// The on-period regret discount rational for one stored regret:
/// `x / (x + 1)` with `x = isqrt(t^3) = floor(t^(3/2))` for a positive
/// regret (the `alpha = 3/2` power), `x = isqrt(t) = floor(t^(1/2))`
/// for a negative one (the `omega = 1/2` power), and one for a zero
/// regret.
pub open spec fn spec_regret_factor(t: int, regret: int) -> (int, int) {
    if regret > 0 {
        (spec_isqrt(t * t * t), spec_isqrt(t * t * t) + 1)
    } else if regret < 0 {
        (spec_isqrt(t), spec_isqrt(t) + 1)
    } else {
        (1, 1)
    }
}

/// What one stored regret becomes under an update: discounted by the
/// phase's factor for its own sign, the delta added, the result
/// clamped into the stored range. Outside the discount phase the
/// factor is one.
pub open spec fn spec_regret_after(old_regret: int, t: int, phase: Phase, d: int) -> int {
    let f = if phase == Phase::Discount {
        spec_regret_factor(t, old_regret)
    } else {
        (1int, 1int)
    };
    spec_clamp(spec_scaled(old_regret, f.0, f.1) + d)
}

/// What one stored policy weight becomes under an update: shrunk by
/// `(t / (t + 1))^2`, the delta added, saturating at the widest
/// storable weight.
pub open spec fn spec_policy_after(old_policy: int, t: int, d: int) -> int {
    let s = spec_scaled(old_policy, t * t, (t + 1) * (t + 1)) + d;
    if s > 0xFFFF_FFFF {
        0xFFFF_FFFF
    } else {
        s
    }
}

/// Multiply a signed fixed-point value by a rational `num / den`,
/// rounding the magnitude down.
pub open spec fn spec_scaled(v: int, num: int, den: int) -> int {
    if v >= 0 {
        (v * num) / den
    } else {
        -(((-v) * num) / den)
    }
}

/// Clamp a value into the stored regret range.
pub open spec fn spec_clamp(v: int) -> int {
    if v < REGRET_MIN {
        REGRET_MIN as int
    } else if v > REGRET_MAX {
        REGRET_MAX as int
    } else {
        v
    }
}

/// Scale a stored regret by a discount rational, exactly.
fn scaled(v: i32, num: u64, den: u64) -> (r: i64)
    requires
        den >= 1,
        num <= den,
        num <= 0x1_0000_0000_0000,
        den <= 0x1_0000_0000_0000,
    ensures
        r == spec_scaled(v as int, num as int, den as int),
        -0x8000_0000 <= r <= 0x8000_0000,
{
    proof {
        lemma_scaled_bounds(v as int, num as int, den as int);
        assert((v as int) * (num as int) <= 0x8000_0000 * 0x1_0000_0000_0000 && (v as int) * (
        num as int) >= -(0x8000_0000 * 0x1_0000_0000_0000) && (-(v as int)) * (num as int)
            <= 0x8000_0000 * 0x1_0000_0000_0000) by (nonlinear_arith)
            requires
                -0x8000_0000 <= v as int <= 0x7FFF_FFFF,
                0 <= num as int <= 0x1_0000_0000_0000,
        ;
    }
    if v >= 0 {
        (((v as i128) * (num as i128)) / (den as i128)) as i64
    } else {
        let m = (-(v as i128)) * (num as i128);
        -((m / (den as i128)) as i64)
    }
}

/// Scaling by a sub-one rational shrinks the magnitude.
proof fn lemma_scaled_bounds(v: int, num: int, den: int)
    requires
        den >= 1,
        num <= den,
        num >= 0,
        -0x8000_0000 <= v <= 0xFFFF_FFFF,
    ensures
        v >= 0 ==> 0 <= (v * num) / den <= v,
        v < 0 ==> 0 <= ((-v) * num) / den <= -v,
{
    if v >= 0 {
        assert(v * num <= v * den) by (nonlinear_arith)
            requires
                v >= 0,
                num <= den,
        ;
        vstd::arithmetic::div_mod::lemma_div_pos_is_pos(v * num, den);
        assert((v * den) / den == v) by {
            vstd::arithmetic::div_mod::lemma_div_multiples_vanish(v, den);
            assert(den * v == v * den) by (nonlinear_arith);
        }
        vstd::arithmetic::div_mod::lemma_div_is_ordered(v * num, v * den, den);
        assert(v * num >= 0) by (nonlinear_arith)
            requires
                v >= 0,
                num >= 0,
        ;
    } else {
        let w = -v;
        assert(w * num <= w * den) by (nonlinear_arith)
            requires
                w >= 0,
                num <= den,
        ;
        vstd::arithmetic::div_mod::lemma_div_pos_is_pos(w * num, den);
        assert((w * den) / den == w) by {
            vstd::arithmetic::div_mod::lemma_div_multiples_vanish(w, den);
            assert(den * w == w * den) by (nonlinear_arith);
        }
        vstd::arithmetic::div_mod::lemma_div_is_ordered(w * num, w * den, den);
        assert(w * num >= 0) by (nonlinear_arith)
            requires
                w >= 0,
                num >= 0,
        ;
    }
}

/// The first delta listed for an edge, if any.
pub open spec fn spec_find_delta<T>(deltas: Seq<(Edge, T)>, e: Edge) -> Option<T>
    decreases deltas.len(),
{
    if deltas.len() == 0 {
        None
    } else if deltas[0].0 == e {
        Some(deltas[0].1)
    } else {
        spec_find_delta(deltas.drop_first(), e)
    }
}

/// The regret and average-policy store: one strategy per visited
/// information set, plus the epoch counter.
pub struct Profile {
    pub iterations: usize,
    pub strategies: Vec<BucketStrategy>,
}

impl Profile {
    /// No two stored strategies share a bucket, every strategy has at
    /// least one edge with no edge repeated, and every stored regret
    /// is clamped into range.
    pub open spec fn wf(self) -> bool {
        &&& forall|i: int, j: int|
            0 <= i < j < self.strategies@.len() ==> (#[trigger] self.strategies@[i]).bucket != (
            #[trigger] self.strategies@[j]).bucket
        &&& forall|i: int|
            0 <= i < self.strategies@.len() ==> {
                let es = (#[trigger] self.strategies@[i]).edges@;
                &&& 1 <= es.len() <= POLICY_SCALE
                &&& forall|a: int, b: int|
                    0 <= a < b < es.len() ==> (#[trigger] es[a]).edge != (#[trigger] es[b]).edge
                &&& forall|a: int|
                    0 <= a < es.len() ==> REGRET_MIN <= (#[trigger] es[a]).decision.regret
                        <= REGRET_MAX
            }
    }

    /// The index of a bucket's strategy, if it was ever witnessed.
    pub open spec fn spec_bucket_at(self, b: Bucket) -> Option<int> {
        if exists|i: int| 0 <= i < self.strategies@.len() && (#[trigger] self.strategies@[i]).bucket
            == b {
            Some(
                choose|i: int|
                    0 <= i < self.strategies@.len() && (#[trigger] self.strategies@[i]).bucket
                        == b,
            )
        } else {
            None
        }
    }

    /// An empty profile, as a fresh training run starts from.
    pub fn load() -> (p: Profile)
        ensures
            p.wf(),
            p.iterations == 0,
            p.strategies@.len() == 0,
    {
        Profile { iterations: 0, strategies: Vec::new() }
    }

    /// Advance the epoch counter and return the new count.
    pub fn next(&mut self) -> (r: usize)
        requires
            old(self).iterations < usize::MAX,
        ensures
            final(self).iterations == old(self).iterations + 1,
            final(self).strategies == old(self).strategies,
            r == final(self).iterations,
    {
        self.iterations = self.iterations + 1;
        self.iterations
    }

    /// How many epochs have been run.
    pub fn epochs(&self) -> (r: usize)
        ensures
            r == self.iterations,
    {
        self.iterations
    }

    /// Which player walks the tree this epoch: the players alternate.
    pub fn walker(&self) -> (r: Player)
        ensures
            r == if self.iterations % 2 == 0 {
                Player::Choice(0usize)
            } else {
                Player::Choice(1usize)
            },
    {
        if self.iterations % 2 == 0 {
            Player::Choice(0)
        } else {
            Player::Choice(1)
        }
    }

    /// The learning phase of the current epoch.
    pub fn phase(&self) -> (r: Phase)
        ensures
            r == spec_phase(self.iterations as int),
    {
        if self.iterations < CFR_DISCOUNT_PHASE {
            Phase::Discount
        } else if self.iterations < CFR_PRUNING_PHASE {
            Phase::Explore
        } else {
            Phase::Prune
        }
    }

    /// Find a bucket's strategy index.
    fn find_bucket(&self, b: Bucket) -> (r: Option<usize>)
        ensures
            match r {
                Some(i) => i < self.strategies@.len() && self.strategies@[i as int].bucket == b,
                None => forall|i: int|
                    0 <= i < self.strategies@.len() ==> (#[trigger] self.strategies@[i]).bucket
                        != b,
            },
    {
        let mut i: usize = 0;
        while i < self.strategies.len()
            invariant
                i <= self.strategies@.len(),
                forall|j: int|
                    0 <= j < i ==> (#[trigger] self.strategies@[j]).bucket != b,
            decreases self.strategies@.len() - i,
        {
            if self.strategies[i].bucket == b {
                return Some(i);
            }
            i = i + 1;
        }
        None
    }

    /// Idempotent initialization: an unseen bucket is stored with a
    /// uniform policy over its edges and zero regret, and no other
    /// bucket is touched; a seen bucket is asserted (by precondition)
    /// to carry exactly the same edges and is left unchanged. The edge
    /// match is element-wise: the tree expander presents a node's
    /// outgoing edges in one fixed order.
    pub fn witness(&mut self, bucket: Bucket, edges: &Vec<Edge>)
        requires
            old(self).wf(),
            1 <= edges@.len() <= POLICY_SCALE,
            forall|a: int, b: int| 0 <= a < b < edges@.len() ==> edges@[a] != edges@[b],
            forall|i: int|
                0 <= i < old(self).strategies@.len() && (#[trigger] old(self).strategies@[i]).bucket
                    == bucket ==> old(self).strategies@[i].edges@.len() == edges@.len() && (forall|
                    k: int,
                |
                    0 <= k < edges@.len() ==> (#[trigger] old(self).strategies@[i].edges@[k]).edge == edges@[k]),
        ensures
            final(self).wf(),
            final(self).iterations == old(self).iterations,
            exists|i: int|
                0 <= i < final(self).strategies@.len() && (#[trigger] final(self).strategies@[i]).bucket == bucket,
            (forall|i: int|
                0 <= i < old(self).strategies@.len() ==> (#[trigger] old(self).strategies@[i]).bucket != bucket) ==> {
                &&& final(self).strategies@.len() == old(self).strategies@.len() + 1
                &&& forall|i: int|
                    0 <= i < old(self).strategies@.len() ==> (#[trigger] final(self).strategies@[i])
                        == old(self).strategies@[i]
                &&& final(self).strategies@.last().bucket == bucket
                &&& final(self).strategies@.last().edges@.len() == edges@.len()
                &&& forall|k: int|
                    0 <= k < edges@.len() ==> (#[trigger] final(self).strategies@.last().edges@[k]) == (DecisionEntry {
                        edge: edges@[k],
                        decision: Decision {
                            regret: 0,
                            policy: (POLICY_SCALE as int / edges@.len() as int) as u32,
                        },
                    })
            },
            (exists|i: int|
                0 <= i < old(self).strategies@.len() && (#[trigger] old(self).strategies@[i]).bucket == bucket) ==> final(self).strategies == old(self).strategies,
    {
        match self.find_bucket(bucket) {
            Some(_) => {
                proof {
                    assert(exists|i: int|
                        0 <= i < self.strategies@.len() && (#[trigger] self.strategies@[i]).bucket
                            == bucket);
                }
            },
            None => {
                let n = edges.len();
                let uniform = POLICY_SCALE / (n as u32);
                let mut entries: Vec<DecisionEntry> = Vec::new();
                let mut k: usize = 0;
                while k < n
                    invariant
                        k <= n,
                        n == edges@.len(),
                        1 <= n <= POLICY_SCALE,
                        uniform == POLICY_SCALE as int / n as int,
                        entries@.len() == k,
                        forall|j: int|
                            0 <= j < k ==> (#[trigger] entries@[j]) == (DecisionEntry {
                                edge: edges@[j],
                                decision: Decision { regret: 0, policy: uniform },
                            }),
                    decreases n - k,
                {
                    entries.push(
                        DecisionEntry {
                            edge: edges[k],
                            decision: Decision { regret: 0, policy: uniform },
                        },
                    );
                    k = k + 1;
                }
                let ghost before = self.strategies@;
                self.strategies.push(BucketStrategy { bucket, edges: entries });
                proof {
                    assert(self.strategies@.last().bucket == bucket);
                    assert forall|i: int, j: int|
                        0 <= i < j < self.strategies@.len() implies (#[trigger] self.strategies@[i]).bucket
                        != (#[trigger] self.strategies@[j]).bucket by {
                        if j == self.strategies@.len() - 1 {
                            assert(before[i].bucket != bucket);
                        }
                    }
                }
            },
        }
    }

    /// The normalized policy weight of one edge of a witnessed bucket:
    /// the stored weight divided by the bucket's total weight, in
    /// milli-units of probability.
    pub fn policy(&self, bucket: Bucket, edge: Edge) -> (r: u64)
        requires
            self.wf(),
            exists|i: int|
                0 <= i < self.strategies@.len() && (#[trigger] self.strategies@[i]).bucket
                    == bucket,
            forall|i: int|
                0 <= i < self.strategies@.len() && (#[trigger] self.strategies@[i]).bucket
                    == bucket ==> (exists|k: int|
                    0 <= k < self.strategies@[i].edges@.len() && (#[trigger] self.strategies@[i].edges@[k]).edge
                        == edge) && sum_policy(
                    self.strategies@[i].edges@,
                    self.strategies@[i].edges@.len() as int,
                ) >= 1,
        ensures
            forall|i: int, k: int|
                0 <= i < self.strategies@.len() && (#[trigger] self.strategies@[i]).bucket
                    == bucket && 0 <= k < self.strategies@[i].edges@.len() && (
                #[trigger] self.strategies@[i].edges@[k]).edge == edge ==> r == (
                self.strategies@[i].edges@[k].decision.policy as int) * (POLICY_SCALE as int)
                    / sum_policy(
                    self.strategies@[i].edges@,
                    self.strategies@[i].edges@.len() as int,
                ),
    {
        let i = match self.find_bucket(bucket) {
            Some(i) => i,
            None => {
                proof {
                    assert(false);
                }
                0
            },
        };
        let strategy = &self.strategies[i];
        let total = total_policy(&strategy.edges);
        let mut k: usize = 0;
        while k < strategy.edges.len()
            invariant
                self.wf(),
                k <= strategy.edges@.len(),
                strategy == self.strategies@[i as int],
                i < self.strategies@.len(),
                self.strategies@[i as int].bucket == bucket,
                total == sum_policy(strategy.edges@, strategy.edges@.len() as int),
                total >= 1,
                forall|j: int| 0 <= j < k ==> (#[trigger] strategy.edges@[j]).edge != edge,
            decreases strategy.edges@.len() - k,
        {
            if strategy.edges[k].edge == edge {
                let w = strategy.edges[k].decision.policy;
                proof {
                    lemma_policy_unique(self.strategies@, bucket, edge, i as int, k as int);
                }
                return ((w as u64) * (POLICY_SCALE as u64)) / total;
            }
            k = k + 1;
        }
        proof {
            assert(false);
        }
        0
    }
}

impl Profile {
    /// The immediate counterfactual regret of each edge: the edge's
    /// counterfactual value less the node's expected value, clamped
    /// into the stored range. The values come from the sampler's walk.
    pub fn regret_vector(&self, cfv: &Vec<(Edge, i64)>, ev: i64) -> (r: Vec<(Edge, i32)>)
        ensures
            r@.len() == cfv@.len(),
            forall|k: int|
                0 <= k < cfv@.len() ==> (#[trigger] r@[k]) == (
                cfv@[k].0,
                spec_clamp(cfv@[k].1 - ev) as i32,
            ),
    {
        let mut out: Vec<(Edge, i32)> = Vec::new();
        let mut k: usize = 0;
        while k < cfv.len()
            invariant
                k <= cfv@.len(),
                out@.len() == k,
                forall|j: int|
                    0 <= j < k ==> (#[trigger] out@[j]) == (
                    cfv@[j].0,
                    spec_clamp(cfv@[j].1 - ev) as i32,
                ),
            decreases cfv@.len() - k,
        {
            let (edge, v) = cfv[k];
            let gain: i128 = (v as i128) - (ev as i128);
            let clamped: i32 = if gain < REGRET_MIN as i128 {
                REGRET_MIN
            } else if gain > REGRET_MAX as i128 {
                REGRET_MAX
            } else {
                gain as i32
            };
            out.push((edge, clamped));
            k = k + 1;
        }
        out
    }

    /// The regret-matched policy of a witnessed bucket: each edge is
    /// weighted by its cumulative regret normalized by the epoch count,
    /// floored at `POLICY_MIN`, and scaled to milli-units of the
    /// bucket's total weight.
    pub fn policy_vector(&self, bucket: Bucket) -> (r: Vec<(Edge, u64)>)
        requires
            self.wf(),
            exists|i: int|
                0 <= i < self.strategies@.len() && (#[trigger] self.strategies@[i]).bucket
                    == bucket,
        ensures
            forall|i: int|
                0 <= i < self.strategies@.len() && (#[trigger] self.strategies@[i]).bucket
                    == bucket ==> {
                    let es = self.strategies@[i].edges@;
                    let t = self.iterations as int;
                    &&& r@.len() == es.len()
                    &&& forall|k: int|
                        0 <= k < es.len() ==> (#[trigger] r@[k]) == (
                        es[k].edge,
                        (spec_weight(es[k].decision.regret as int, t) * (POLICY_SCALE as int)
                            / sum_weights(es, t, es.len() as int)) as u64,
                        )
                },
    {
        let i = match self.find_bucket(bucket) {
            Some(i) => i,
            None => {
                proof {
                    assert(false);
                }
                0
            },
        };
        let strategy = &self.strategies[i];
        let epochs: u64 = if self.iterations >= 1 {
            self.iterations as u64
        } else {
            1
        };
        let ghost t: int = self.iterations as int;
        let total = total_weights(&strategy.edges, epochs, Ghost(t));
        proof {
            lemma_bucket_unique(self.strategies@, bucket, i as int);
        }
        let mut out: Vec<(Edge, u64)> = Vec::new();
        let mut k: usize = 0;
        while k < strategy.edges.len()
            invariant
                k <= strategy.edges@.len(),
                strategy == self.strategies@[i as int],
                i < self.strategies@.len(),
                strategy.edges@.len() <= POLICY_SCALE,
                epochs >= 1,
                epochs == if self.iterations as int >= 1 {
                    self.iterations as int
                } else {
                    1int
                },
                forall|a: int|
                    0 <= a < strategy.edges@.len() ==> REGRET_MIN <= (
                    #[trigger] strategy.edges@[a]).decision.regret <= REGRET_MAX,
                total == sum_weights(
                    strategy.edges@,
                    self.iterations as int,
                    strategy.edges@.len() as int,
                ),
                total >= 1,
                out@.len() == k,
                forall|j: int|
                    0 <= j < k ==> (#[trigger] out@[j]) == (
                    strategy.edges@[j].edge,
                    (spec_weight(strategy.edges@[j].decision.regret as int, self.iterations as int)
                        * (POLICY_SCALE as int) / sum_weights(
                        strategy.edges@,
                        self.iterations as int,
                        strategy.edges@.len() as int,
                    )) as u64,
                    ),
            decreases strategy.edges@.len() - k,
        {
            let entry = strategy.edges[k];
            proof {
                assert(entry == strategy.edges@[k as int]);
            }
            let w: u64 = entry_weight(entry, epochs, Ghost(self.iterations as int));
            proof {
                assert(w <= 300000000);
                assert(w * (POLICY_SCALE as u64) <= 300000000000);
            }
            let weighted: u64 = w * (POLICY_SCALE as u64);
            out.push((entry.edge, weighted / total));
            k = k + 1;
        }
        out
    }

    /// Apply the phase's discount to each stored regret, then add the
    /// incoming delta, clamped into the stored range.
    pub fn regret_update(&mut self, bucket: Bucket, deltas: &Vec<(Edge, i32)>)
        requires
            old(self).wf(),
            old(self).iterations < 0xFFFF_FFFF,
            exists|i: int|
                0 <= i < old(self).strategies@.len() && (#[trigger] old(self).strategies@[i]).bucket
                    == bucket,
        ensures
            final(self).wf(),
            final(self).iterations == old(self).iterations,
            final(self).strategies@.len() == old(self).strategies@.len(),
            forall|i: int|
                0 <= i < old(self).strategies@.len() && (#[trigger] old(self).strategies@[i]).bucket
                    != bucket ==> final(self).strategies@[i] == old(self).strategies@[i],
            forall|i: int|
                0 <= i < old(self).strategies@.len() && (#[trigger] old(self).strategies@[i]).bucket
                    == bucket ==> {
                    let before = old(self).strategies@[i].edges@;
                    let after = final(self).strategies@[i].edges@;
                    &&& final(self).strategies@[i].bucket == bucket
                    &&& after.len() == before.len()
                    &&& forall|k: int|
                        0 <= k < before.len() ==> {
                            &&& (#[trigger] after[k]).edge == before[k].edge
                            &&& after[k].decision.policy == before[k].decision.policy
                            &&& after[k].decision.regret == match spec_find_delta(
                                deltas@,
                                before[k].edge,
                            ) {
                                Some(d) => spec_regret_after(
                                    before[k].decision.regret as int,
                                    old(self).iterations as int,
                                    spec_phase(old(self).iterations as int),
                                    d as int,
                                ),
                                None => before[k].decision.regret as int,
                            }
                        }
                },
    {
        let i = match self.find_bucket(bucket) {
            Some(i) => i,
            None => {
                proof {
                    assert(false);
                }
                return ;
            },
        };
        let t = self.iterations as u64;
        let phase = self.phase();
        let discount = Discount::new();
        let n = self.strategies[i].edges.len();
        proof {
            lemma_bucket_unique(self.strategies@, bucket, i as int);
        }
        let mut k: usize = 0;
        while k < n
            invariant
                k <= n,
                i < self.strategies@.len(),
                n == self.strategies@[i as int].edges@.len(),
                n == old(self).strategies@[i as int].edges@.len(),
                self.wf(),
                t == old(self).iterations,
                t < 0xFFFF_FFFF,
                phase == spec_phase(old(self).iterations as int),
                discount.period == 1,
                self.iterations == old(self).iterations,
                self.strategies@.len() == old(self).strategies@.len(),
                old(self).strategies@[i as int].bucket == bucket,
                self.strategies@[i as int].bucket == bucket,
                forall|x: int|
                    0 <= x < old(self).strategies@.len() && x != i ==> (#[trigger] self.strategies@[x])
                        == old(self).strategies@[x],
                forall|j: int|
                    k <= j < n ==> (#[trigger] self.strategies@[i as int].edges@[j]) == old(
                        self,
                    ).strategies@[i as int].edges@[j],
                forall|j: int|
                    0 <= j < k ==> {
                        let before = old(self).strategies@[i as int].edges@;
                        let now = (#[trigger] self.strategies@[i as int].edges@[j]);
                        &&& now.edge == before[j].edge
                        &&& now.decision.policy == before[j].decision.policy
                        &&& now.decision.regret == match spec_find_delta(deltas@, before[j].edge) {
                            Some(d) => spec_regret_after(
                                before[j].decision.regret as int,
                                t as int,
                                phase,
                                d as int,
                            ),
                            None => before[j].decision.regret as int,
                        }
                    },
            decreases n - k,
        {
            let entry = self.strategies[i].edges[k];
            let delta = find_delta_i32(deltas, entry.edge);
            match delta {
                Some(d) => {
                    let (num, den) = match phase {
                        Phase::Discount => discount.regret(t, entry.decision.regret),
                        Phase::Explore => (1, 1),
                        Phase::Prune => (1, 1),
                    };
                    let shrunk = scaled(entry.decision.regret, num, den);
                    let sum: i64 = shrunk + (d as i64);
                    let clamped: i32 = if sum < REGRET_MIN as i64 {
                        REGRET_MIN
                    } else if sum > REGRET_MAX as i64 {
                        REGRET_MAX
                    } else {
                        sum as i32
                    };
                    proof {
                        assert(clamped == spec_regret_after(
                            entry.decision.regret as int,
                            t as int,
                            phase,
                            d as int,
                        ));
                    }
                    let mut q = entry;
                    q.decision.regret = clamped;
                    set_entry(&mut self.strategies, i, k, q);
                },
                None => {},
            }
            k = k + 1;
        }
        proof {
            assert forall|x: int|
                0 <= x < old(self).strategies@.len() && (#[trigger] old(self).strategies@[x]).bucket
                    == bucket implies x == i as int by {}
            assert(self.strategies@[i as int].edges@.len() == n);
        }
    }

    /// Shrink each stored average-policy weight by the policy discount
    /// `(t / (t + 1))^2`, then add the incoming delta, saturating at
    /// the widest storable weight.
    pub fn policy_update(&mut self, bucket: Bucket, deltas: &Vec<(Edge, u32)>)
        requires
            old(self).wf(),
            old(self).iterations < 0xFFFF_FFFF,
            exists|i: int|
                0 <= i < old(self).strategies@.len() && (#[trigger] old(self).strategies@[i]).bucket
                    == bucket,
        ensures
            final(self).wf(),
            final(self).iterations == old(self).iterations,
            final(self).strategies@.len() == old(self).strategies@.len(),
            forall|i: int|
                0 <= i < old(self).strategies@.len() && (#[trigger] old(self).strategies@[i]).bucket
                    != bucket ==> final(self).strategies@[i] == old(self).strategies@[i],
            forall|i: int|
                0 <= i < old(self).strategies@.len() && (#[trigger] old(self).strategies@[i]).bucket
                    == bucket ==> {
                    let before = old(self).strategies@[i].edges@;
                    let after = final(self).strategies@[i].edges@;
                    &&& final(self).strategies@[i].bucket == bucket
                    &&& after.len() == before.len()
                    &&& forall|k: int|
                        0 <= k < before.len() ==> {
                            &&& (#[trigger] after[k]).edge == before[k].edge
                            &&& after[k].decision.regret == before[k].decision.regret
                            &&& after[k].decision.policy == match spec_find_delta(
                                deltas@,
                                before[k].edge,
                            ) {
                                Some(d) => spec_policy_after(
                                    before[k].decision.policy as int,
                                    old(self).iterations as int,
                                    d as int,
                                ),
                                None => before[k].decision.policy as int,
                            }
                        }
                },
    {
        let i = match self.find_bucket(bucket) {
            Some(i) => i,
            None => {
                proof {
                    assert(false);
                }
                return ;
            },
        };
        let t = self.iterations as u64;
        let discount = Discount::new();
        let (num, den) = discount.policy(t);
        let n = self.strategies[i].edges.len();
        proof {
            lemma_bucket_unique(self.strategies@, bucket, i as int);
        }
        let mut k: usize = 0;
        while k < n
            invariant
                k <= n,
                i < self.strategies@.len(),
                n == self.strategies@[i as int].edges@.len(),
                n == old(self).strategies@[i as int].edges@.len(),
                self.wf(),
                t == old(self).iterations,
                num == (t as int) * (t as int),
                den == (t as int + 1) * (t as int + 1),
                num < den,
                den >= 1,
                self.iterations == old(self).iterations,
                self.strategies@.len() == old(self).strategies@.len(),
                old(self).strategies@[i as int].bucket == bucket,
                self.strategies@[i as int].bucket == bucket,
                forall|x: int|
                    0 <= x < old(self).strategies@.len() && x != i ==> (#[trigger] self.strategies@[x])
                        == old(self).strategies@[x],
                forall|j: int|
                    k <= j < n ==> (#[trigger] self.strategies@[i as int].edges@[j]) == old(
                        self,
                    ).strategies@[i as int].edges@[j],
                forall|j: int|
                    0 <= j < k ==> {
                        let before = old(self).strategies@[i as int].edges@;
                        let now = (#[trigger] self.strategies@[i as int].edges@[j]);
                        &&& now.edge == before[j].edge
                        &&& now.decision.regret == before[j].decision.regret
                        &&& now.decision.policy == match spec_find_delta(deltas@, before[j].edge) {
                            Some(d) => spec_policy_after(
                                before[j].decision.policy as int,
                                t as int,
                                d as int,
                            ),
                            None => before[j].decision.policy as int,
                        }
                    },
            decreases n - k,
        {
            let entry = self.strategies[i].edges[k];
            let delta = find_delta_u32(deltas, entry.edge);
            match delta {
                Some(d) => {
                    proof {
                        lemma_scaled_bounds(entry.decision.policy as int, num as int, den as int);
                        assert((entry.decision.policy as int) * (num as int) <= 0x1_0000_0000
                            * 0xFFFF_FFFF_FFFF_FFFF) by (nonlinear_arith)
                            requires
                                entry.decision.policy <= 0xFFFF_FFFF,
                                num <= 0xFFFF_FFFF_FFFF_FFFF,
                        ;
                    }
                    let shrunk: u64 = (((entry.decision.policy as u128) * (num as u128)) / (
                    den as u128)) as u64;
                    let sum: u64 = shrunk + (d as u64);
                    let capped: u32 = if sum > 0xFFFF_FFFF {
                        0xFFFF_FFFF
                    } else {
                        sum as u32
                    };
                    proof {
                        assert(capped == spec_policy_after(
                            entry.decision.policy as int,
                            t as int,
                            d as int,
                        ));
                    }
                    let mut q = entry;
                    q.decision.policy = capped;
                    set_entry(&mut self.strategies, i, k, q);
                },
                None => {},
            }
            k = k + 1;
        }
        proof {
            assert forall|x: int|
                0 <= x < old(self).strategies@.len() && (#[trigger] old(self).strategies@[x]).bucket
                    == bucket implies x == i as int by {}
        }
    }
}

/// Replace one decision entry, preserving everything else and the
/// store's shape.
fn set_entry(strategies: &mut Vec<BucketStrategy>, i: usize, k: usize, q: DecisionEntry)
    requires
        i < old(strategies)@.len(),
        k < old(strategies)@[i as int].edges@.len(),
        q.edge == old(strategies)@[i as int].edges@[k as int].edge,
        REGRET_MIN <= q.decision.regret <= REGRET_MAX,
        forall|a: int, b: int|
            0 <= a < b < old(strategies)@.len() ==> (#[trigger] old(strategies)@[a]).bucket != (
            #[trigger] old(strategies)@[b]).bucket,
        forall|x: int|
            0 <= x < old(strategies)@.len() ==> {
                let es = (#[trigger] old(strategies)@[x]).edges@;
                &&& 1 <= es.len() <= POLICY_SCALE
                &&& forall|a: int, b: int|
                    0 <= a < b < es.len() ==> (#[trigger] es[a]).edge != (#[trigger] es[b]).edge
                &&& forall|a: int|
                    0 <= a < es.len() ==> REGRET_MIN <= (#[trigger] es[a]).decision.regret
                        <= REGRET_MAX
            },
    ensures
        final(strategies)@.len() == old(strategies)@.len(),
        forall|x: int|
            0 <= x < old(strategies)@.len() && x != i ==> (#[trigger] final(strategies)@[x]) == old(
                strategies,
            )@[x],
        final(strategies)@[i as int].bucket == old(strategies)@[i as int].bucket,
        final(strategies)@[i as int].edges@ == old(strategies)@[i as int].edges@.update(
            k as int,
            q,
        ),
        forall|a: int, b: int|
            0 <= a < b < final(strategies)@.len() ==> (#[trigger] final(strategies)@[a]).bucket
                != (#[trigger] final(strategies)@[b]).bucket,
        forall|x: int|
            0 <= x < final(strategies)@.len() ==> {
                let es = (#[trigger] final(strategies)@[x]).edges@;
                &&& 1 <= es.len() <= POLICY_SCALE
                &&& forall|a: int, b: int|
                    0 <= a < b < es.len() ==> (#[trigger] es[a]).edge != (#[trigger] es[b]).edge
                &&& forall|a: int|
                    0 <= a < es.len() ==> REGRET_MIN <= (#[trigger] es[a]).decision.regret
                        <= REGRET_MAX
            },
{
    let mut strategy = BucketStrategy { bucket: strategies[i].bucket, edges: Vec::new() };
    let src = &strategies[i];
    let mut j: usize = 0;
    while j < src.edges.len()
        invariant
            j <= src.edges@.len(),
            k < src.edges@.len(),
            src == old(strategies)@[i as int],
            q.edge == src.edges@[k as int].edge,
            strategy.bucket == src.bucket,
            strategy.edges@.len() == j,
            forall|a: int|
                0 <= a < j ==> (#[trigger] strategy.edges@[a]) == if a == k {
                    q
                } else {
                    src.edges@[a]
                },
        decreases src.edges@.len() - j,
    {
        if j == k {
            strategy.edges.push(q);
        } else {
            strategy.edges.push(src.edges[j]);
        }
        j = j + 1;
    }
    strategies.set(i, strategy);
    proof {
        assert(final(strategies)@[i as int].edges@ =~= old(strategies)@[i as int].edges@.update(
            k as int,
            q,
        ));
    }
}

/// The first delta listed for an edge, scanning in order.
fn find_delta_i32(deltas: &Vec<(Edge, i32)>, e: Edge) -> (r: Option<i32>)
    ensures
        r == spec_find_delta(deltas@, e),
{
    let mut k: usize = 0;
    proof {
        assert(deltas@.skip(0) =~= deltas@);
    }
    while k < deltas.len()
        invariant
            k <= deltas@.len(),
            spec_find_delta(deltas@, e) == spec_find_delta(deltas@.skip(k as int), e),
        decreases deltas@.len() - k,
    {
        proof {
            assert(deltas@.skip(k as int).drop_first() =~= deltas@.skip(k as int + 1));
        }
        let (edge, d) = deltas[k];
        if edge == e {
            return Some(d);
        }
        k = k + 1;
    }
    proof {
        assert(deltas@.skip(deltas@.len() as int).len() == 0);
    }
    None
}

/// The first delta listed for an edge, scanning in order.
fn find_delta_u32(deltas: &Vec<(Edge, u32)>, e: Edge) -> (r: Option<u32>)
    ensures
        r == spec_find_delta(deltas@, e),
{
    let mut k: usize = 0;
    proof {
        assert(deltas@.skip(0) =~= deltas@);
    }
    while k < deltas.len()
        invariant
            k <= deltas@.len(),
            spec_find_delta(deltas@, e) == spec_find_delta(deltas@.skip(k as int), e),
        decreases deltas@.len() - k,
    {
        proof {
            assert(deltas@.skip(k as int).drop_first() =~= deltas@.skip(k as int + 1));
        }
        let (edge, d) = deltas[k];
        if edge == e {
            return Some(d);
        }
        k = k + 1;
    }
    proof {
        assert(deltas@.skip(deltas@.len() as int).len() == 0);
    }
    None
}

/// A bucket occurs at most once in a well-formed store.
proof fn lemma_bucket_unique(ss: Seq<BucketStrategy>, bucket: Bucket, i: int)
    requires
        0 <= i < ss.len(),
        ss[i].bucket == bucket,
        forall|a: int, b: int| 0 <= a < b < ss.len() ==> (#[trigger] ss[a]).bucket != (
        #[trigger] ss[b]).bucket,
    ensures
        forall|j: int| 0 <= j < ss.len() && (#[trigger] ss[j]).bucket == bucket ==> j == i,
{
}

/// The regret-matching weight of one stored regret: the cumulative
/// regret normalized by the epoch count, floored at `POLICY_MIN`.
/// Before the first epoch the normalizer is one.
pub open spec fn spec_weight(regret: int, t: int) -> int {
    let epochs = if t >= 1 {
        t
    } else {
        1
    };
    let normalized = regret / epochs;
    if normalized >= POLICY_MIN {
        normalized
    } else {
        POLICY_MIN as int
    }
}

/// The regret-matching weights of the first `k` entries, summed.
pub open spec fn sum_weights(es: Seq<DecisionEntry>, t: int, k: int) -> int
    decreases k,
{
    if k <= 0 {
        0
    } else {
        sum_weights(es, t, k - 1) + spec_weight(es[k - 1].decision.regret as int, t)
    }
}

/// At least one milli-unit of weight per entry.
proof fn lemma_sum_weights_pos(es: Seq<DecisionEntry>, t: int, k: int)
    ensures
        sum_weights(es, t, k) >= k,
    decreases k,
{
    if k > 0 {
        lemma_sum_weights_pos(es, t, k - 1);
    }
}

/// Weights are bounded by the clamped regret range.
proof fn lemma_sum_weights_le(es: Seq<DecisionEntry>, t: int, k: int)
    requires
        forall|a: int| 0 <= a < es.len() ==> REGRET_MIN <= (#[trigger] es[a]).decision.regret
            <= REGRET_MAX,
        0 <= k <= es.len(),
    ensures
        sum_weights(es, t, k) <= k * (REGRET_MAX as int),
    decreases k,
{
    if k > 0 {
        lemma_sum_weights_le(es, t, k - 1);
        lemma_weight_bounds(es[k - 1].decision.regret as int, t);
        assert(k * (REGRET_MAX as int) == (k - 1) * (REGRET_MAX as int) + REGRET_MAX)
            by (nonlinear_arith);
    }
}

/// A normalized weight sits between the floor and the raw regret cap.
proof fn lemma_weight_bounds(regret: int, t: int)
    requires
        regret <= REGRET_MAX,
    ensures
        POLICY_MIN <= spec_weight(regret, t),
        spec_weight(regret, t) <= REGRET_MAX,
{
    let epochs: int = if t >= 1 {
        t
    } else {
        1
    };
    if regret >= 1 {
        vstd::arithmetic::div_mod::lemma_div_is_ordered_by_denominator(regret, 1, epochs);
        vstd::arithmetic::div_mod::lemma_div_basics(regret);
    } else {
        lemma_small_regret_floors(regret, epochs);
    }
}

/// One entry's regret-matching weight: its cumulative regret over the
/// epoch count, floored at `POLICY_MIN`. `epochs` carries the epoch
/// count `t`, already lifted to at least one.
fn entry_weight(entry: DecisionEntry, epochs: u64, t: Ghost<int>) -> (w: u64)
    requires
        epochs == if t@ >= 1 {
            t@
        } else {
            1int
        },
        entry.decision.regret <= REGRET_MAX,
    ensures
        w == spec_weight(entry.decision.regret as int, t@),
        w <= REGRET_MAX,
{
    if entry.decision.regret >= POLICY_MIN {
        let normalized = (entry.decision.regret as u64) / epochs;
        proof {
            vstd::arithmetic::div_mod::lemma_div_is_ordered_by_denominator(
                entry.decision.regret as int,
                1,
                epochs as int,
            );
            vstd::arithmetic::div_mod::lemma_div_basics(entry.decision.regret as int);
        }
        if normalized >= POLICY_MIN as u64 {
            normalized
        } else {
            POLICY_MIN as u64
        }
    } else {
        proof {
            lemma_small_regret_floors(entry.decision.regret as int, epochs as int);
        }
        POLICY_MIN as u64
    }
}

/// A regret below the floor normalizes below the floor.
proof fn lemma_small_regret_floors(regret: int, epochs: int)
    requires
        regret < POLICY_MIN,
        epochs >= 1,
    ensures
        regret / epochs < POLICY_MIN,
{
    vstd::arithmetic::div_mod::lemma_fundamental_div_mod(regret, epochs);
    vstd::arithmetic::div_mod::lemma_mod_bound(regret, epochs);
    let q = regret / epochs;
    assert(q < POLICY_MIN) by (nonlinear_arith)
        requires
            epochs >= 1,
            regret < 1,
            epochs * q + (regret % epochs) == regret,
            0 <= regret % epochs < epochs,
    ;
}

/// The total regret-matching weight of a strategy's entries at epoch
/// `t`; `epochs` carries `t` lifted to at least one.
fn total_weights(es: &Vec<DecisionEntry>, epochs: u64, t: Ghost<int>) -> (r: u64)
    requires
        epochs == if t@ >= 1 {
            t@
        } else {
            1int
        },
        es@.len() <= POLICY_SCALE,
        forall|a: int| 0 <= a < es@.len() ==> REGRET_MIN <= (#[trigger] es@[a]).decision.regret
            <= REGRET_MAX,
    ensures
        r == sum_weights(es@, t@, es@.len() as int),
        r >= es@.len(),
{
    let mut acc: u64 = 0;
    let mut k: usize = 0;
    while k < es.len()
        invariant
            epochs == if t@ >= 1 {
                t@
            } else {
                1int
            },
            k <= es@.len(),
            es@.len() <= POLICY_SCALE,
            forall|a: int|
                0 <= a < es@.len() ==> REGRET_MIN <= (#[trigger] es@[a]).decision.regret
                    <= REGRET_MAX,
            acc == sum_weights(es@, t@, k as int),
            acc <= (k as int) * (REGRET_MAX as int),
        decreases es@.len() - k,
    {
        proof {
            assert((k as int + 1) * (REGRET_MAX as int) <= 1001 * (REGRET_MAX as int))
                by (nonlinear_arith)
                requires
                    k as int + 1 <= 1001,
            ;
            assert((k as int + 1) * (REGRET_MAX as int) == (k as int) * (REGRET_MAX as int)
                + REGRET_MAX) by (nonlinear_arith);
        }
        let entry = es[k];
        let w: u64 = entry_weight(entry, epochs, t);
        acc = acc + w;
        k = k + 1;
    }
    proof {
        lemma_sum_weights_pos(es@, t@, es@.len() as int);
    }
    acc
}

/// After a fresh witness the stored policies are uniform: each edge
/// holds exactly `POLICY_SCALE / n` milli-units, so the bucket's total
/// weight differs from one whole unit by less than the edge count.
pub proof fn lemma_witness_uniform_sum(es: Seq<DecisionEntry>, n: int)
    requires
        1 <= n <= POLICY_SCALE,
        es.len() == n,
        forall|k: int|
            0 <= k < n ==> (#[trigger] es[k]).decision.policy == (POLICY_SCALE as int / n) as u32,
    ensures
        sum_policy(es, n) == n * (POLICY_SCALE as int / n),
        POLICY_SCALE - n < sum_policy(es, n) <= POLICY_SCALE,
{
    lemma_uniform_sum_rec(es, n, n);
    vstd::arithmetic::div_mod::lemma_fundamental_div_mod(POLICY_SCALE as int, n);
    vstd::arithmetic::div_mod::lemma_mod_bound(POLICY_SCALE as int, n);
    let q = POLICY_SCALE as int / n;
    assert(n * q == POLICY_SCALE - (POLICY_SCALE as int % n));
}

/// The sum of `k` identical uniform entries.
proof fn lemma_uniform_sum_rec(es: Seq<DecisionEntry>, n: int, k: int)
    requires
        1 <= n <= POLICY_SCALE,
        es.len() == n,
        0 <= k <= n,
        forall|j: int|
            0 <= j < n ==> (#[trigger] es[j]).decision.policy == (POLICY_SCALE as int / n) as u32,
    ensures
        sum_policy(es, k) == k * (POLICY_SCALE as int / n),
    decreases k,
{
    vstd::arithmetic::div_mod::lemma_fundamental_div_mod(POLICY_SCALE as int, n);
    vstd::arithmetic::div_mod::lemma_mod_bound(POLICY_SCALE as int, n);
    vstd::arithmetic::div_mod::lemma_div_pos_is_pos(POLICY_SCALE as int, n);
    if k > 0 {
        lemma_uniform_sum_rec(es, n, k - 1);
        assert(k * (POLICY_SCALE as int / n) == (k - 1) * (POLICY_SCALE as int / n) + (
        POLICY_SCALE as int / n)) by (nonlinear_arith);
    } else {
        assert(k * (POLICY_SCALE as int / n) <= 0) by (nonlinear_arith)
            requires
                k <= 0,
                POLICY_SCALE as int / n >= 0,
        ;
        assert(k * (POLICY_SCALE as int / n) >= 0) by (nonlinear_arith)
            requires
                k >= 0,
                POLICY_SCALE as int / n >= 0,
        ;
    }
}

/// The stored policy weights of the first `k` entries, summed.
pub open spec fn sum_policy(es: Seq<DecisionEntry>, k: int) -> int
    decreases k,
{
    if k <= 0 {
        0
    } else {
        sum_policy(es, k - 1) + es[k - 1].decision.policy
    }
}

/// Policy sums are monotone in the prefix.
pub proof fn lemma_sum_policy_prefix(es: Seq<DecisionEntry>, k1: int, k2: int)
    requires
        0 <= k1 <= k2,
    ensures
        sum_policy(es, k1) <= sum_policy(es, k2),
        sum_policy(es, k2) >= 0,
    decreases k2,
{
    if k1 < k2 {
        lemma_sum_policy_prefix(es, k1, k2 - 1);
    } else if k2 > 0 {
        lemma_sum_policy_prefix(es, 0, k2 - 1);
    }
}

/// In a well-formed strategy the looked-up entry is the only one for
/// its edge, in the only strategy for its bucket.
proof fn lemma_policy_unique(ss: Seq<BucketStrategy>, bucket: Bucket, edge: Edge, i: int, k: int)
    requires
        0 <= i < ss.len(),
        ss[i].bucket == bucket,
        0 <= k < ss[i].edges@.len(),
        ss[i].edges@[k].edge == edge,
        forall|a: int, b: int| 0 <= a < b < ss.len() ==> (#[trigger] ss[a]).bucket != (
        #[trigger] ss[b]).bucket,
        forall|a: int, b: int|
            0 <= a < b < ss[i].edges@.len() ==> (#[trigger] ss[i].edges@[a]).edge != (
            #[trigger] ss[i].edges@[b]).edge,
    ensures
        forall|i2: int, k2: int|
            0 <= i2 < ss.len() && (#[trigger] ss[i2]).bucket == bucket && 0 <= k2
                < ss[i2].edges@.len() && (#[trigger] ss[i2].edges@[k2]).edge == edge ==> i2 == i
                && k2 == k,
{
}

/// The total stored policy weight of a strategy's entries.
fn total_policy(es: &Vec<DecisionEntry>) -> (r: u64)
    requires
        es@.len() <= 0x1_0000_0000,
    ensures
        r == sum_policy(es@, es@.len() as int),
{
    let mut acc: u64 = 0;
    let mut k: usize = 0;
    while k < es.len()
        invariant
            k <= es@.len(),
            es@.len() <= 0x1_0000_0000,
            acc == sum_policy(es@, k as int),
            acc <= (k as int) * 0x1_0000_0000,
        decreases es@.len() - k,
    {
        proof {
            assert((k as int + 1) * 0x1_0000_0000 == (k as int) * 0x1_0000_0000 + 0x1_0000_0000)
                by (nonlinear_arith);
            assert((k as int) * 0x1_0000_0000 <= 0x1_0000_0000 * 0x1_0000_0000)
                by (nonlinear_arith)
                requires
                    0 <= k as int <= 0x1_0000_0000,
            ;
        }
        acc = acc + es[k].decision.policy as u64;
        k = k + 1;
    }
    acc
}

} // verus!
