//! Full hand strength: a ranking plus its kickers, totally ordered.

use vstd::prelude::*;
use crate::cards::kicks::Kickers;
use crate::cards::ranking::Ranking;

verus! {

/// A hand's full strength. Strengths compare lexicographically: the
/// ranking decides first, the kicker mask breaks remaining ties.
#[derive(Debug, Clone, Copy, PartialEq, Eq, Structural)]
pub struct Strength {
    pub ranking: Ranking,
    pub kickers: Kickers,
}

impl Strength {
    /// Assemble a strength from its parts.
    pub fn new(ranking: Ranking, kickers: Kickers) -> (r: Strength)
        ensures
            r.ranking == ranking,
            r.kickers == kickers,
    {
        Strength { ranking, kickers }
    }

    /// The whole strength packed into one integer so that integer `<`
    /// is exactly the lexicographic order on (ranking, kicker mask).
    pub open spec fn spec_value(self) -> int {
        self.ranking.spec_value() * 8192 + self.kickers.spec_mask()
    }

    /// The packed strength, comparable with `<`.
    pub fn value(self) -> (r: u32)
        requires
            self.kickers.wf(),
        ensures
            r == self.spec_value(),
    {
        proof {
            lemma_kick_mask_range(self.kickers.spec_mask());
        }
        self.ranking.value() * 8192 + self.kickers.mask as u32
    }
}

/// A 13-bit kicker mask is below 8192.
proof fn lemma_kick_mask_range(m: u16)
    by (bit_vector)
    requires
        m >> 13 == 0u16,
    ensures
        m < 8192,
{
}

/// The packed value orders strengths by ranking first.
pub proof fn lemma_strength_order(a: Strength, b: Strength)
    requires
        a.kickers.wf(),
        b.kickers.wf(),
    ensures
        a.ranking.spec_value() < b.ranking.spec_value() ==> a.spec_value() < b.spec_value(),
        a.ranking == b.ranking ==> (a.spec_value() < b.spec_value() <==> a.kickers.spec_mask()
            < b.kickers.spec_mask()),
{
    lemma_kick_mask_range(a.kickers.spec_mask());
    lemma_kick_mask_range(b.kickers.spec_mask());
}

/// Strengths with equal packed values are equal.
pub proof fn lemma_strength_injective(a: Strength, b: Strength)
    requires
        a.kickers.wf(),
        b.kickers.wf(),
        a.spec_value() == b.spec_value(),
    ensures
        a == b,
{
    lemma_kick_mask_range(a.kickers.spec_mask());
    lemma_kick_mask_range(b.kickers.spec_mask());
    crate::cards::ranking::lemma_value_injective(a.ranking, b.ranking);
}

} // verus!
