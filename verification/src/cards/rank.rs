//! Card ranks, ordered from Two (lowest) up to Ace.

use vstd::prelude::*;

verus! {

/// A card rank. The discriminant order is the strength order:
/// `Two` is the weakest rank and `Ace` the strongest.
#[derive(Debug, Clone, Copy, PartialEq, Eq, Structural)]
pub enum Rank {
    Two,
    Three,
    Four,
    Five,
    Six,
    Seven,
    Eight,
    Nine,
    Ten,
    Jack,
    Queen,
    King,
    Ace,
}

impl Rank {
    /// The index of a rank: `Two` is 0 and `Ace` is 12.
    pub open spec fn spec_index(self) -> u8 {
        match self {
            Rank::Two => 0,
            Rank::Three => 1,
            Rank::Four => 2,
            Rank::Five => 3,
            Rank::Six => 4,
            Rank::Seven => 5,
            Rank::Eight => 6,
            Rank::Nine => 7,
            Rank::Ten => 8,
            Rank::Jack => 9,
            Rank::Queen => 10,
            Rank::King => 11,
            Rank::Ace => 12,
        }
    }

    /// Rank as its index in strength order.
    pub fn index(self) -> (r: u8)
        ensures
            r == self.spec_index(),
            r < 13,
    {
        match self {
            Rank::Two => 0,
            Rank::Three => 1,
            Rank::Four => 2,
            Rank::Five => 3,
            Rank::Six => 4,
            Rank::Seven => 5,
            Rank::Eight => 6,
            Rank::Nine => 7,
            Rank::Ten => 8,
            Rank::Jack => 9,
            Rank::Queen => 10,
            Rank::King => 11,
            Rank::Ace => 12,
        }
    }

    /// The rank with the given index in strength order.
    pub fn from_index(i: u8) -> (r: Rank)
        requires
            i < 13,
        ensures
            r.spec_index() == i,
    {
        match i {
            0 => Rank::Two,
            1 => Rank::Three,
            2 => Rank::Four,
            3 => Rank::Five,
            4 => Rank::Six,
            5 => Rank::Seven,
            6 => Rank::Eight,
            7 => Rank::Nine,
            8 => Rank::Ten,
            9 => Rank::Jack,
            10 => Rank::Queen,
            11 => Rank::King,
            _ => Rank::Ace,
        }
    }
}

/// Two ranks with the same index are the same rank.
pub proof fn lemma_rank_index_injective(a: Rank, b: Rank)
    requires
        a.spec_index() == b.spec_index(),
    ensures
        a == b,
{
}

} // verus!
