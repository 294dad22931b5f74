//! Stepwise side-pot settlement over the engine's result lines: the
//! same slicing as the gameplay settlement, exposed move by move so a
//! caller can drive it.

use vstd::prelude::*;
use vstd::pervasive::VecAdditionalExecFns;
use crate::engine::seat::BetStatus;
use crate::engine::payoff::HandResult;
use crate::engine::payoff::sum_staked;
use crate::engine::payoff::sum_reward;
use crate::engine::payoff::sum_min;
use crate::engine::payoff::lemma_sum_staked_prefix;
use crate::engine::payoff::lemma_sum_reward_prefix;
use crate::engine::payoff::lemma_sum_min_zero;
use crate::engine::payoff::lemma_sum_min_vs_staked;
use crate::engine::payoff::lemma_sum_min_cap_monotone;
use crate::engine::payoff::lemma_sum_min_cap_le;
use crate::engine::payoff::lemma_sum_congruent;
use crate::engine::payoff::lemma_sum_reward_congruent;

verus! {

/// No chip appears or vanishes while settling: every staked chip can
/// be won by some live seat at least as deep as its contributor.
pub open spec fn spec_covered(s: Seq<HandResult>) -> bool {
    forall|i: int|
        0 <= i < s.len() && (#[trigger] s[i]).staked > 0 ==> exists|j: int|
            0 <= j < s.len() && (#[trigger] s[j]).status != BetStatus::Folded && s[j].staked
                >= s[i].staked
}

/// How many lines contend for the slice above `floor` at `score`.
pub open spec fn count_winners(s: Seq<HandResult>, score: u32, floor: u32, k: int) -> int
    decreases k,
{
    if k <= 0 {
        0
    } else {
        count_winners(s, score, floor, k - 1) + if s[k - 1].status != BetStatus::Folded && s[k
            - 1].score == score && s[k - 1].staked > floor {
            1int
        } else {
            0int
        }
    }
}

/// An ephemeral settlement: walks score levels downward and stake
/// levels upward, distributing each slice of the pot, until the
/// rewards balance the stakes.
pub struct Showdown {
    pub results: Vec<HandResult>,
    pub next_score: u32,
    pub next_stake: u32,
    pub prev_stake: u32,
}

impl Showdown {
    /// The number of settlement lines.
    pub open spec fn n(self) -> int {
        self.results@.len() as int
    }

    /// Every staked chip has been rewarded.
    pub open spec fn spec_complete(self) -> bool {
        sum_staked(self.results@, self.n()) == sum_reward(self.results@, self.n())
    }

    /// Is line `i` a contender at `score` above `floor`?
    pub open spec fn spec_contender(self, i: int, score: u32, floor: u32) -> bool {
        &&& 0 <= i < self.n()
        &&& self.results@[i].status != BetStatus::Folded
        &&& self.results@[i].score == score
        &&& self.results@[i].staked > floor
    }

    /// Begin a settlement over the given result lines.
    pub fn new(results: Vec<HandResult>) -> (s: Showdown)
        ensures
            s.results == results,
            s.next_score == u32::MAX,
            s.next_stake == 0,
            s.prev_stake == 0,
    {
        Showdown { results, next_score: u32::MAX, next_stake: 0, prev_stake: 0 }
    }

    /// Have the rewards caught up with the stakes?
    pub fn is_complete(&self) -> (r: bool)
        requires
            sum_staked(self.results@, self.n()) <= u32::MAX,
            sum_reward(self.results@, self.n()) <= u32::MAX,
        ensures
            r == self.spec_complete(),
    {
        let s = &self.results;
        let mut staked: u64 = 0;
        let mut reward: u64 = 0;
        let mut i: usize = 0;
        while i < s.len()
            invariant
                i <= s@.len(),
                staked == sum_staked(s@, i as int),
                reward == sum_reward(s@, i as int),
                sum_staked(s@, s@.len() as int) <= u32::MAX,
                sum_reward(s@, s@.len() as int) <= u32::MAX,
            decreases s@.len() - i,
        {
            proof {
                lemma_sum_staked_prefix(s@, i + 1, s@.len() as int);
                lemma_sum_reward_prefix(s@, i + 1, s@.len() as int);
                lemma_sum_staked_prefix(s@, 0, i + 1);
                lemma_sum_reward_prefix(s@, 0, i + 1);
            }
            staked = staked + s[i].staked as u64;
            reward = reward + s[i].reward as u64;
            i = i + 1;
        }
        staked == reward
    }

    /// Move the score cursor to the best remaining live score.
    pub fn next_score(&mut self)
        requires
            exists|i: int|
                0 <= i < old(self).n() && (#[trigger] old(self).results@[i]).status
                    != BetStatus::Folded && old(self).results@[i].score < old(self).next_score,
        ensures
            final(self).results == old(self).results,
            final(self).next_stake == old(self).next_stake,
            final(self).prev_stake == old(self).prev_stake,
            final(self).next_score < old(self).next_score,
            exists|i: int|
                0 <= i < old(self).n() && (#[trigger] old(self).results@[i]).status
                    != BetStatus::Folded && old(self).results@[i].score == final(self).next_score,
            forall|i: int|
                0 <= i < old(self).n() && (#[trigger] old(self).results@[i]).status
                    != BetStatus::Folded && old(self).results@[i].score < old(self).next_score
                    ==> old(self).results@[i].score <= final(self).next_score,
    {
        let mut best: u32 = 0;
        let mut found = false;
        let mut i: usize = 0;
        while i < self.results.len()
            invariant
                i <= self.n(),
                *self == *old(self),
                !found ==> forall|j: int|
                    0 <= j < i ==> !((#[trigger] self.results@[j]).status != BetStatus::Folded
                        && self.results@[j].score < self.next_score),
                found ==> exists|j: int|
                    0 <= j < i && (#[trigger] self.results@[j]).status != BetStatus::Folded
                        && self.results@[j].score == best,
                found ==> best < self.next_score,
                forall|j: int|
                    0 <= j < i && (#[trigger] self.results@[j]).status != BetStatus::Folded
                        && self.results@[j].score < self.next_score ==> (found
                        && self.results@[j].score <= best),
            decreases self.n() - i,
        {
            let p = self.results[i];
            if matches!(p.status, BetStatus::Folded) {
            } else if p.score < self.next_score {
                if !found || p.score > best {
                    best = p.score;
                    found = true;
                }
            }
            i = i + 1;
        }
        proof {
            if !found {
                let w = choose|i: int|
                    0 <= i < old(self).n() && (#[trigger] old(self).results@[i]).status
                        != BetStatus::Folded && old(self).results@[i].score < old(self).next_score;
                assert(false);
            }
        }
        self.next_score = best;
    }

    /// Move the stake cursor up: the old level becomes the floor and
    /// the next level is the smallest contending stake above it.
    pub fn next_stake(&mut self)
        requires
            exists|i: int|
                #[trigger] old(self).spec_contender(i, old(self).next_score, old(self).next_stake),
        ensures
            final(self).results == old(self).results,
            final(self).next_score == old(self).next_score,
            final(self).prev_stake == old(self).next_stake,
            final(self).next_stake > final(self).prev_stake,
            exists|i: int|
                #[trigger] final(self).spec_contender(i, final(self).next_score, final(self).prev_stake)
                    && final(self).results@[i].staked == final(self).next_stake,
            forall|i: int|
                #[trigger] final(self).spec_contender(i, final(self).next_score, final(self).prev_stake)
                    ==> final(self).results@[i].staked >= final(self).next_stake,
    {
        self.prev_stake = self.next_stake;
        let mut best: u32 = 0;
        let mut found = false;
        let mut i: usize = 0;
        while i < self.results.len()
            invariant
                i <= self.n(),
                self.results == old(self).results,
                self.next_score == old(self).next_score,
                self.prev_stake == old(self).next_stake,
                self.next_stake == old(self).next_stake,
                found ==> exists|j: int|
                    #[trigger] self.spec_contender(j, self.next_score, self.prev_stake)
                        && self.results@[j].staked == best,
                found ==> best > self.prev_stake,
                !found ==> forall|j: int|
                    0 <= j < i ==> !(#[trigger] self.spec_contender(
                        j,
                        self.next_score,
                        self.prev_stake,
                    )),
                forall|j: int|
                    0 <= j < i && #[trigger] self.spec_contender(j, self.next_score, self.prev_stake)
                        ==> (found && self.results@[j].staked >= best),
            decreases self.n() - i,
        {
            let p = self.results[i];
            let live = !matches!(p.status, BetStatus::Folded);
            if live && p.score == self.next_score && p.staked > self.prev_stake {
                if !found || p.staked < best {
                    best = p.staked;
                    found = true;
                }
                proof {
                    assert(self.spec_contender(i as int, self.next_score, self.prev_stake));
                }
            }
            i = i + 1;
        }
        proof {
            if !found {
                let w = choose|i: int|
                    #[trigger] old(self).spec_contender(
                        i,
                        old(self).next_score,
                        old(self).next_stake,
                    );
                assert(self.spec_contender(w, self.next_score, self.prev_stake));
            }
        }
        let ghost pre = *self;
        self.next_stake = best;
        proof {
            let j = choose|j: int|
                #[trigger] pre.spec_contender(j, pre.next_score, pre.prev_stake)
                    && pre.results@[j].staked == best;
            assert(self.spec_contender(j, self.next_score, self.prev_stake));
            assert(self.results@[j].staked == self.next_stake);
            assert forall|i: int|
                #[trigger] self.spec_contender(i, self.next_score, self.prev_stake) implies self.results@[i].staked
                >= self.next_stake by {
                assert(pre.spec_contender(i, pre.next_score, pre.prev_stake));
            }
        }
    }

    /// The chips sitting in the current slice: each line's stake capped
    /// at the new level, less what was already claimed below the floor.
    fn winnings(&self) -> (r: u32)
        requires
            self.prev_stake <= self.next_stake,
            sum_staked(self.results@, self.n()) <= u32::MAX,
        ensures
            r == sum_min(self.results@, self.next_stake as int, self.n()) - sum_min(
                self.results@,
                self.prev_stake as int,
                self.n(),
            ),
    {
        let s = &self.results;
        let mut acc: u64 = 0;
        let mut i: usize = 0;
        while i < s.len()
            invariant
                i <= s@.len(),
                self.prev_stake <= self.next_stake,
                acc == sum_min(s@, self.next_stake as int, i as int) - sum_min(
                    s@,
                    self.prev_stake as int,
                    i as int,
                ),
                sum_staked(s@, s@.len() as int) <= u32::MAX,
                acc <= u32::MAX,
            decreases s@.len() - i,
        {
            proof {
                lemma_sum_min_cap_le(s@, self.prev_stake as int, self.next_stake as int, i + 1);
                lemma_sum_min_vs_staked(s@, self.next_stake as int, i + 1);
                lemma_sum_min_vs_staked(s@, self.prev_stake as int, i + 1);
                lemma_sum_staked_prefix(s@, i + 1, s@.len() as int);
            }
            let capped = if s[i].staked <= self.next_stake {
                s[i].staked
            } else {
                self.next_stake
            };
            let slice = if capped >= self.prev_stake {
                capped - self.prev_stake
            } else {
                0
            };
            acc = acc + slice as u64;
            i = i + 1;
        }
        acc as u32
    }

    /// How many lines contend for the current slice.
    fn winners(&self) -> (c: usize)
        ensures
            c == count_winners(
                self.results@,
                self.next_score,
                self.prev_stake,
                self.n(),
            ),
            c <= self.n(),
    {
        let mut c: usize = 0;
        let mut i: usize = 0;
        while i < self.results.len()
            invariant
                i <= self.n(),
                c == count_winners(self.results@, self.next_score, self.prev_stake, i as int),
                c <= i,
            decreases self.n() - i,
        {
            let p = self.results[i];
            let live = !matches!(p.status, BetStatus::Folded);
            if live && p.score == self.next_score && p.staked > self.prev_stake {
                c = c + 1;
            }
            i = i + 1;
        }
        c
    }

    /// Share the current slice equally among its contenders, handing
    /// the odd chips one each to the earliest seats.
    pub fn distribute(&mut self)
        requires
            old(self).prev_stake <= old(self).next_stake,
            sum_staked(old(self).results@, old(self).n()) <= u32::MAX,
            sum_reward(old(self).results@, old(self).n()) == sum_min(
                old(self).results@,
                old(self).prev_stake as int,
                old(self).n(),
            ),
            exists|i: int|
                #[trigger] old(self).spec_contender(i, old(self).next_score, old(self).prev_stake),
        ensures
            final(self).next_score == old(self).next_score,
            final(self).next_stake == old(self).next_stake,
            final(self).prev_stake == old(self).prev_stake,
            final(self).n() == old(self).n(),
            forall|i: int|
                0 <= i < old(self).n() ==> {
                    &&& (#[trigger] final(self).results@[i]).staked == old(self).results@[i].staked
                    &&& final(self).results@[i].status == old(self).results@[i].status
                    &&& final(self).results@[i].score == old(self).results@[i].score
                    &&& final(self).results@[i].seat_id == old(self).results@[i].seat_id
                },
            sum_reward(final(self).results@, final(self).n()) == sum_min(
                final(self).results@,
                final(self).next_stake as int,
                final(self).n(),
            ),
            forall|i: int|
                0 <= i < old(self).n() ==> (#[trigger] final(self).results@[i]).reward == {
                    let slice = sum_min(old(self).results@, old(self).next_stake as int, old(self).n())
                        - sum_min(old(self).results@, old(self).prev_stake as int, old(self).n());
                    let winners = count_winners(
                        old(self).results@,
                        old(self).next_score,
                        old(self).prev_stake,
                        old(self).n(),
                    );
                    if old(self).spec_contender(i, old(self).next_score, old(self).prev_stake) {
                        old(self).results@[i].reward + slice / winners + (
                        if count_winners(
                            old(self).results@,
                            old(self).next_score,
                            old(self).prev_stake,
                            i,
                        ) < slice % winners {
                            1int
                        } else {
                            0int
                        })
                    } else {
                        old(self).results@[i].reward as int
                    }
                },
    {
        let ghost s0 = self.results@;
        let ghost nn = self.n();
        let w = self.winnings();
        let nw = self.winners();
        proof {
            let i = choose|i: int|
                #[trigger] old(self).spec_contender(
                    i,
                    old(self).next_score,
                    old(self).prev_stake,
                );
            lemma_count_positive(s0, self.next_score, self.prev_stake, i, nn);
            lemma_sum_min_vs_staked(s0, self.next_stake as int, nn);
            lemma_sum_min_vs_staked(s0, self.prev_stake as int, nn);
            lemma_sum_min_cap_le(s0, self.prev_stake as int, self.next_stake as int, nn);
        }
        let share = ((w as u64) / (nw as u64)) as u32;
        let rem = ((w as u64) % (nw as u64)) as usize;
        let ghost wint = w as int;
        proof {
            lemma_share_bound(wint, nw as int);
        }
        let mut seen: usize = 0;
        let mut i: usize = 0;
        while i < self.results.len()
            invariant
                i <= nn,
                nn == self.n(),
                s0.len() == nn,
                seen == count_winners(s0, self.next_score, self.prev_stake, i as int),
                seen <= i,
                nw == count_winners(s0, self.next_score, self.prev_stake, nn),
                rem < nw,
                share == wint / (nw as int),
                rem == wint % (nw as int),
                wint == sum_min(s0, self.next_stake as int, nn) - sum_min(
                    s0,
                    self.prev_stake as int,
                    nn,
                ),
                sum_min(s0, self.next_stake as int, nn) <= u32::MAX,
                0 <= wint <= u32::MAX,
                0 <= share <= wint,
                rem >= 1 ==> share + 1 <= wint,
                sum_staked(s0, nn) <= u32::MAX,
                sum_reward(s0, nn) == sum_min(s0, self.prev_stake as int, nn),
                self.next_score == old(self).next_score,
                self.next_stake == old(self).next_stake,
                self.prev_stake == old(self).prev_stake,
                self.prev_stake <= self.next_stake,
                forall|j: int| i <= j < nn ==> #[trigger] self.results@[j] == s0[j],
                forall|j: int|
                    0 <= j < nn ==> {
                        &&& (#[trigger] self.results@[j]).staked == s0[j].staked
                        &&& self.results@[j].status == s0[j].status
                        &&& self.results@[j].score == s0[j].score
                        &&& self.results@[j].seat_id == s0[j].seat_id
                    },
                forall|j: int|
                    0 <= j < i ==> (#[trigger] self.results@[j]).reward == if s0[j].status
                        != BetStatus::Folded && s0[j].score == self.next_score && s0[j].staked
                        > self.prev_stake {
                        s0[j].reward + share + (if count_winners(
                            s0,
                            self.next_score,
                            self.prev_stake,
                            j,
                        ) < rem as int {
                            1int
                        } else {
                            0int
                        })
                    } else {
                        s0[j].reward as int
                    },
                forall|j: int|
                    i <= j < nn ==> (#[trigger] self.results@[j]).reward == s0[j].reward,
                sum_reward(self.results@, i as int) == sum_reward(s0, i as int) + share * (
                seen as int) + (if seen <= rem {
                    seen as int
                } else {
                    rem as int
                }),
            decreases nn - i,
        {
            let ghost before = self.results@;
            let p = self.results[i];
            let live = !matches!(p.status, BetStatus::Folded);
            if live && p.score == self.next_score && p.staked > self.prev_stake {
                let extra: u32 = if seen < rem {
                    1
                } else {
                    0
                };
                proof {
                    lemma_reward_element_le(s0, i as int, nn);
                    if extra == 1 {
                        assert(seen < rem);
                    }
                }
                let mut q = p;
                q.reward = q.reward + share + extra;
                self.results.set(i, q);
                proof {
                    lemma_sum_reward_congruent(self.results@, before, i as int);
                    assert(sum_reward(self.results@, i + 1) == sum_reward(self.results@, i as int)
                        + self.results@[i as int].reward);
                    assert(sum_reward(s0, i + 1) == sum_reward(s0, i as int) + s0[i as int].reward);
                    assert(share * (seen as int + 1) == share * (seen as int) + share) by (nonlinear_arith);
                }
                seen = seen + 1;
            } else {
                proof {
                    assert(sum_reward(self.results@, i + 1) == sum_reward(self.results@, i as int)
                        + self.results@[i as int].reward);
                    assert(sum_reward(s0, i + 1) == sum_reward(s0, i as int) + s0[i as int].reward);
                }
            }
            i = i + 1;
        }
        proof {
            assert(seen == nw);
            vstd::arithmetic::div_mod::lemma_fundamental_div_mod(wint, nw as int);
            assert(share * (nw as int) + rem == wint) by {
                assert(wint == (nw as int) * (wint / (nw as int)) + wint % (nw as int));
                assert((nw as int) * share == share * (nw as int)) by (nonlinear_arith);
            }
            lemma_sum_congruent(self.results@, s0, self.next_stake as int, nn);
            lemma_sum_congruent(self.results@, s0, self.prev_stake as int, nn);
        }
    }
}

/// A contender in the prefix makes the winner count positive.
proof fn lemma_count_positive(s: Seq<HandResult>, score: u32, floor: u32, i: int, k: int)
    requires
        0 <= i < k,
        s[i].status != BetStatus::Folded,
        s[i].score == score,
        s[i].staked > floor,
    ensures
        count_winners(s, score, floor, k) >= 1,
        count_winners(s, score, floor, k) >= 0,
    decreases k,
{
    lemma_count_nonneg(s, score, floor, k);
    if i < k - 1 {
        lemma_count_positive(s, score, floor, i, k - 1);
    } else {
        lemma_count_nonneg(s, score, floor, k - 1);
    }
}

/// Winner counts are never negative.
proof fn lemma_count_nonneg(s: Seq<HandResult>, score: u32, floor: u32, k: int)
    ensures
        count_winners(s, score, floor, k) >= 0,
    decreases k,
{
    if k > 0 {
        lemma_count_nonneg(s, score, floor, k - 1);
    }
}

/// One line's reward never exceeds the whole reward sum.
proof fn lemma_reward_element_le(s: Seq<HandResult>, i: int, n: int)
    requires
        0 <= i < n,
    ensures
        s[i].reward <= sum_reward(s, n),
    decreases n,
{
    lemma_sum_reward_prefix(s, 0, i);
    lemma_sum_reward_prefix(s, i + 1, n);
}

/// The per-winner share, plus an odd chip where one is owed, stays
/// within the slice.
proof fn lemma_share_bound(w: int, nw: int)
    requires
        w >= 0,
        nw >= 1,
    ensures
        0 <= w / nw <= w,
        w % nw >= 1 ==> w / nw + 1 <= w,
        0 <= w % nw < nw,
{
    vstd::arithmetic::div_mod::lemma_fundamental_div_mod(w, nw);
    vstd::arithmetic::div_mod::lemma_div_pos_is_pos(w, nw);
    vstd::arithmetic::div_mod::lemma_mod_bound(w, nw);
    let q = w / nw;
    assert(nw * q >= q) by (nonlinear_arith)
        requires
            q >= 0,
            nw >= 1,
    ;
}

} // verus!
