//! Hand categories and their strength order.

use vstd::prelude::*;
use crate::cards::rank::Rank;

verus! {

/// The category of a 5-to-7 card hand, with its tie-breaking ranks.
/// Categories are ordered from `HighCard` (weakest) to `StraightFlush`
/// (strongest); within a category the carried ranks break ties.
#[derive(Debug, Clone, Copy, PartialEq, Eq, Structural)]
pub enum Ranking {
    HighCard(Rank),
    OnePair(Rank),
    TwoPair(Rank, Rank),
    ThreeOAK(Rank),
    Straight(Rank),
    Flush(Rank),
    FullHouse(Rank, Rank),
    FourOAK(Rank),
    StraightFlush(Rank),
}

impl Ranking {
    /// The category index: `HighCard` is 0 and `StraightFlush` is 8.
    pub open spec fn spec_category(self) -> int {
        match self {
            Ranking::HighCard(_) => 0,
            Ranking::OnePair(_) => 1,
            Ranking::TwoPair(_, _) => 2,
            Ranking::ThreeOAK(_) => 3,
            Ranking::Straight(_) => 4,
            Ranking::Flush(_) => 5,
            Ranking::FullHouse(_, _) => 6,
            Ranking::FourOAK(_) => 7,
            Ranking::StraightFlush(_) => 8,
        }
    }

    /// The primary tie-break rank index.
    pub open spec fn spec_primary(self) -> int {
        match self {
            Ranking::HighCard(r) => r.spec_index() as int,
            Ranking::OnePair(r) => r.spec_index() as int,
            Ranking::TwoPair(hi, _) => hi.spec_index() as int,
            Ranking::ThreeOAK(r) => r.spec_index() as int,
            Ranking::Straight(r) => r.spec_index() as int,
            Ranking::Flush(r) => r.spec_index() as int,
            Ranking::FullHouse(t, _) => t.spec_index() as int,
            Ranking::FourOAK(r) => r.spec_index() as int,
            Ranking::StraightFlush(r) => r.spec_index() as int,
        }
    }

    /// The secondary tie-break rank index; zero where the category has none.
    pub open spec fn spec_secondary(self) -> int {
        match self {
            Ranking::TwoPair(_, lo) => lo.spec_index() as int,
            Ranking::FullHouse(_, p) => p.spec_index() as int,
            _ => 0,
        }
    }

    /// The whole ranking packed into one integer so that the usual `<`
    /// on integers is exactly the poker strength order: category first,
    /// then the primary rank, then the secondary rank.
    pub open spec fn spec_value(self) -> int {
        self.spec_category() * 169 + self.spec_primary() * 13 + self.spec_secondary()
    }

    /// The packed strength of the ranking, comparable with `<`.
    pub fn value(self) -> (r: u32)
        ensures
            r == self.spec_value(),
            r < 1690,
    {
        let (cat, hi, lo): (u32, u32, u32) = match self {
            Ranking::HighCard(r) => (0, r.index() as u32, 0),
            Ranking::OnePair(r) => (1, r.index() as u32, 0),
            Ranking::TwoPair(hi, lo) => (2, hi.index() as u32, lo.index() as u32),
            Ranking::ThreeOAK(r) => (3, r.index() as u32, 0),
            Ranking::Straight(r) => (4, r.index() as u32, 0),
            Ranking::Flush(r) => (5, r.index() as u32, 0),
            Ranking::FullHouse(t, p) => (6, t.index() as u32, p.index() as u32),
            Ranking::FourOAK(r) => (7, r.index() as u32, 0),
            Ranking::StraightFlush(r) => (8, r.index() as u32, 0),
        };
        cat * 169 + hi * 13 + lo
    }

    /// Does this ranking strictly beat the other?
    pub fn beats(self, other: Ranking) -> (r: bool)
        ensures
            r == (self.spec_value() > other.spec_value()),
    {
        self.value() > other.value()
    }
}

/// The packed value orders rankings first by category.
pub proof fn lemma_value_orders_categories(a: Ranking, b: Ranking)
    requires
        a.spec_category() < b.spec_category(),
    ensures
        a.spec_value() < b.spec_value(),
{
}

/// The packed value separates distinct rankings, so `spec_value`
/// comparison is a strict total order on rankings: exactly one of
/// `a < b`, `a == b`, `b < a` holds, and equal values mean equal
/// rankings.
#[verifier::rlimit(50)]
pub proof fn lemma_value_injective(a: Ranking, b: Ranking)
    requires
        a.spec_value() == b.spec_value(),
    ensures
        a == b,
{
    assert(a.spec_category() == b.spec_category());
    assert(a.spec_primary() == b.spec_primary());
    assert(a.spec_secondary() == b.spec_secondary());
}

} // verus!
