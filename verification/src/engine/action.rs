//! The actions a seat can take, each carrying the acting seat and the
//! chips it moves.

use vstd::prelude::*;

verus! {

/// A betting action. `Draw` is the chance deal; `Blind` is a forced
/// post before any choice is made.
#[derive(Debug, Clone, Copy, PartialEq, Eq, Structural)]
pub enum Action {
    Fold(usize),
    Check(usize),
    Call(usize, u32),
    Raise(usize, u32),
    Shove(usize, u32),
    Draw(u64),
    Blind(u32),
}

impl Action {
    /// How many chips the action moves into the pot.
    pub open spec fn spec_chips(self) -> int {
        match self {
            Action::Call(_, c) => c as int,
            Action::Raise(_, c) => c as int,
            Action::Shove(_, c) => c as int,
            Action::Blind(c) => c as int,
            _ => 0,
        }
    }

    /// The chips the action moves into the pot.
    pub fn chips(self) -> (r: u32)
        ensures
            r == self.spec_chips(),
    {
        match self {
            Action::Call(_, c) => c,
            Action::Raise(_, c) => c,
            Action::Shove(_, c) => c,
            Action::Blind(c) => c,
            _ => 0,
        }
    }
}

} // verus!
