//! A single card, identified by an integer in `[0, 52)`.

use vstd::prelude::*;
use crate::cards::rank::Rank;
use crate::cards::suit::Suit;

verus! {

/// A card. The identifier factors as `4 * rank + suit`, which is also the
/// card's bit position in the hand bitboard.
#[derive(Debug, Clone, Copy, PartialEq, Eq, Structural)]
pub struct Card {
    pub id: u8,
}

impl Card {
    /// The card identifier, in `[0, 52)`.
    pub open spec fn spec_id(self) -> u8 {
        self.id
    }

    /// A card is well formed when its identifier is below the deck size.
    pub open spec fn wf(self) -> bool {
        self.id < 52
    }

    /// The rank index of the card.
    pub open spec fn spec_rank(self) -> u8 {
        self.id / 4
    }

    /// The suit index of the card.
    pub open spec fn spec_suit(self) -> u8 {
        self.id % 4
    }

    /// Build a card from its identifier.
    pub fn new(id: u8) -> (c: Card)
        requires
            id < 52,
        ensures
            c.wf(),
            c.spec_id() == id,
    {
        Card { id }
    }

    /// Build a card from a rank and a suit.
    pub fn of(rank: Rank, suit: Suit) -> (c: Card)
        ensures
            c.wf(),
            c.spec_rank() == rank.spec_index(),
            c.spec_suit() == suit.spec_index(),
            c.spec_id() == 4 * rank.spec_index() + suit.spec_index(),
    {
        let id = 4 * rank.index() + suit.index();
        Card { id }
    }

    /// The card identifier.
    pub fn id(self) -> (r: u8)
        ensures
            r == self.spec_id(),
    {
        self.id
    }

    /// The rank of the card.
    pub fn rank(self) -> (r: Rank)
        requires
            self.wf(),
        ensures
            r.spec_index() == self.spec_rank(),
    {
        Rank::from_index(self.id / 4)
    }

    /// The suit of the card.
    pub fn suit(self) -> (r: Suit)
        requires
            self.wf(),
        ensures
            r.spec_index() == self.spec_suit(),
    {
        Suit::from_index(self.id % 4)
    }
}

} // verus!
