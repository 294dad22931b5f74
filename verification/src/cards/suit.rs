//! Card suits.

use vstd::prelude::*;

verus! {

/// A card suit. Suits carry no strength; the order is only a storage order.
#[derive(Debug, Clone, Copy, PartialEq, Eq, Structural)]
pub enum Suit {
    Club,
    Diamond,
    Heart,
    Spade,
}

impl Suit {
    /// The index of a suit in storage order.
    pub open spec fn spec_index(self) -> u8 {
        match self {
            Suit::Club => 0,
            Suit::Diamond => 1,
            Suit::Heart => 2,
            Suit::Spade => 3,
        }
    }

    /// Suit as its storage index.
    pub fn index(self) -> (r: u8)
        ensures
            r == self.spec_index(),
            r < 4,
    {
        match self {
            Suit::Club => 0,
            Suit::Diamond => 1,
            Suit::Heart => 2,
            Suit::Spade => 3,
        }
    }

    /// The suit with the given storage index.
    pub fn from_index(i: u8) -> (r: Suit)
        requires
            i < 4,
        ensures
            r.spec_index() == i,
    {
        match i {
            0 => Suit::Club,
            1 => Suit::Diamond,
            2 => Suit::Heart,
            _ => Suit::Spade,
        }
    }
}

/// Two suits with the same index are the same suit.
pub proof fn lemma_suit_index_injective(a: Suit, b: Suit)
    requires
        a.spec_index() == b.spec_index(),
    ensures
        a == b,
{
}

} // verus!
