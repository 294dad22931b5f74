//! The result a seat carries out of a hand: stake, status, score, and
//! the reward the settlement assigns.

use vstd::prelude::*;
use crate::engine::seat::BetStatus;

verus! {

/// One seat's result line. `score` is the seat's showdown strength;
/// folded seats never win regardless of score.
#[derive(Debug, Clone, Copy, PartialEq, Eq, Structural)]
pub struct HandResult {
    pub seat_id: usize,
    pub status: BetStatus,
    pub staked: u32,
    pub reward: u32,
    pub score: u32,
}

impl HandResult {
    /// A line for a seat that staked chips and reached showdown with a
    /// score; rewards start at zero.
    pub fn new(seat_id: usize, status: BetStatus, staked: u32, score: u32) -> (p: HandResult)
        ensures
            p.seat_id == seat_id,
            p.status == status,
            p.staked == staked,
            p.score == score,
            p.reward == 0,
    {
        HandResult { seat_id, status, staked, reward: 0, score }
    }
}

/// The chips staked by the first `k` lines.
pub open spec fn sum_staked(s: Seq<HandResult>, k: int) -> int
    decreases k,
{
    if k <= 0 {
        0
    } else {
        sum_staked(s, k - 1) + s[k - 1].staked
    }
}

/// The chips rewarded to the first `k` lines.
pub open spec fn sum_reward(s: Seq<HandResult>, k: int) -> int
    decreases k,
{
    if k <= 0 {
        0
    } else {
        sum_reward(s, k - 1) + s[k - 1].reward
    }
}

/// Each line's stake capped at `cap`, summed over the first `k` lines.
pub open spec fn sum_min(s: Seq<HandResult>, cap: int, k: int) -> int
    decreases k,
{
    if k <= 0 {
        0
    } else {
        sum_min(s, cap, k - 1) + if s[k - 1].staked <= cap {
            s[k - 1].staked as int
        } else {
            cap
        }
    }
}

/// Sums of stakes are monotone in the prefix length.
pub proof fn lemma_sum_staked_prefix(s: Seq<HandResult>, k1: int, k2: int)
    requires
        0 <= k1 <= k2,
    ensures
        sum_staked(s, k1) <= sum_staked(s, k2),
        sum_staked(s, k2) >= 0,
    decreases k2,
{
    if k1 < k2 {
        lemma_sum_staked_prefix(s, k1, k2 - 1);
    } else if k2 > 0 {
        lemma_sum_staked_prefix(s, 0, k2 - 1);
    }
}

/// Sums of rewards are monotone in the prefix length.
pub proof fn lemma_sum_reward_prefix(s: Seq<HandResult>, k1: int, k2: int)
    requires
        0 <= k1 <= k2,
    ensures
        sum_reward(s, k1) <= sum_reward(s, k2),
        sum_reward(s, k2) >= 0,
    decreases k2,
{
    if k1 < k2 {
        lemma_sum_reward_prefix(s, k1, k2 - 1);
    } else if k2 > 0 {
        lemma_sum_reward_prefix(s, 0, k2 - 1);
    }
}

/// A capped sum at cap zero is zero.
pub proof fn lemma_sum_min_zero(s: Seq<HandResult>, k: int)
    ensures
        sum_min(s, 0, k) == 0,
    decreases k,
{
    if k > 0 {
        lemma_sum_min_zero(s, k - 1);
    }
}

/// A capped sum never exceeds the plain sum of stakes, and reaches it
/// exactly when every stake in the prefix is at most the cap.
pub proof fn lemma_sum_min_vs_staked(s: Seq<HandResult>, cap: int, k: int)
    requires
        cap >= 0,
        0 <= k,
    ensures
        0 <= sum_min(s, cap, k) <= sum_staked(s, k),
        (sum_min(s, cap, k) == sum_staked(s, k)) == (forall|i: int|
            0 <= i < k ==> (#[trigger] s[i]).staked <= cap),
    decreases k,
{
    if k > 0 {
        lemma_sum_min_vs_staked(s, cap, k - 1);
    }
}

/// Raising the cap never lowers a capped sum; when some line in the
/// prefix staked at least the higher cap, the sum grows by at least
/// the cap difference.
pub proof fn lemma_sum_min_cap_monotone(s: Seq<HandResult>, c1: int, c2: int, k: int, w: int)
    requires
        0 <= c1 <= c2,
        0 <= w < k,
        s[w].staked >= c2,
    ensures
        sum_min(s, c2, k) >= sum_min(s, c1, k) + (c2 - c1),
    decreases k,
{
    lemma_sum_min_cap_le(s, c1, c2, k - 1);
    if w == k - 1 {
    } else {
        lemma_sum_min_cap_monotone(s, c1, c2, k - 1, w);
    }
}

/// Raising the cap never lowers a capped sum.
pub proof fn lemma_sum_min_cap_le(s: Seq<HandResult>, c1: int, c2: int, k: int)
    requires
        0 <= c1 <= c2,
    ensures
        sum_min(s, c1, k) <= sum_min(s, c2, k),
    decreases k,
{
    if k > 0 {
        lemma_sum_min_cap_le(s, c1, c2, k - 1);
    }
}

/// Sums only read the fields they name, over the prefix they cover.
pub proof fn lemma_sum_congruent(s1: Seq<HandResult>, s2: Seq<HandResult>, cap: int, k: int)
    requires
        forall|i: int| 0 <= i < k ==> (#[trigger] s1[i]).staked == s2[i].staked,
    ensures
        sum_staked(s1, k) == sum_staked(s2, k),
        sum_min(s1, cap, k) == sum_min(s2, cap, k),
    decreases k,
{
    if k > 0 {
        lemma_sum_congruent(s1, s2, cap, k - 1);
    }
}

/// Reward sums only read rewards, over the prefix they cover.
pub proof fn lemma_sum_reward_congruent(s1: Seq<HandResult>, s2: Seq<HandResult>, k: int)
    requires
        forall|i: int| 0 <= i < k ==> (#[trigger] s1[i]).reward == s2[i].reward,
    ensures
        sum_reward(s1, k) == sum_reward(s2, k),
    decreases k,
{
    if k > 0 {
        lemma_sum_reward_congruent(s1, s2, k - 1);
    }
}

} // verus!
