//! Betting streets, keyed by how many public cards are on the board.

use vstd::prelude::*;

verus! {

/// A betting street.
#[derive(Debug, Clone, Copy, PartialEq, Eq, Structural)]
pub enum Street {
    Pref,
    Flop,
    Turn,
    Rive,
}

impl Street {
    /// How many public cards are on the board at this street.
    pub open spec fn spec_n_observed(self) -> u8 {
        match self {
            Street::Pref => 0,
            Street::Flop => 3,
            Street::Turn => 4,
            Street::Rive => 5,
        }
    }

    /// How many cards the next deal reveals.
    pub open spec fn spec_n_revealed(self) -> u8 {
        match self {
            Street::Pref => 3,
            Street::Flop => 1,
            Street::Turn => 1,
            Street::Rive => 0,
        }
    }

    /// The number of public cards on the board at this street.
    pub fn n_observed(self) -> (r: u8)
        ensures
            r == self.spec_n_observed(),
    {
        match self {
            Street::Pref => 0,
            Street::Flop => 3,
            Street::Turn => 4,
            Street::Rive => 5,
        }
    }

    /// The number of cards revealed by the next deal.
    pub fn n_revealed(self) -> (r: u8)
        ensures
            r == self.spec_n_revealed(),
    {
        match self {
            Street::Pref => 3,
            Street::Flop => 1,
            Street::Turn => 1,
            Street::Rive => 0,
        }
    }

    /// The street before this one. Preflop has no predecessor and is
    /// returned unchanged.
    pub fn prev(self) -> (r: Street)
        ensures
            r == match self {
                Street::Pref => Street::Pref,
                Street::Flop => Street::Pref,
                Street::Turn => Street::Flop,
                Street::Rive => Street::Turn,
            },
    {
        match self {
            Street::Pref => Street::Pref,
            Street::Flop => Street::Pref,
            Street::Turn => Street::Flop,
            Street::Rive => Street::Turn,
        }
    }

    /// The street after this one. The river has no successor and is
    /// returned unchanged.
    pub fn next(self) -> (r: Street)
        ensures
            r == match self {
                Street::Pref => Street::Flop,
                Street::Flop => Street::Turn,
                Street::Turn => Street::Rive,
                Street::Rive => Street::Rive,
            },
    {
        match self {
            Street::Pref => Street::Flop,
            Street::Flop => Street::Turn,
            Street::Turn => Street::Rive,
            Street::Rive => Street::Rive,
        }
    }
}

} // verus!
