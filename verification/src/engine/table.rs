//! The shared table state a seat bets against.

use vstd::prelude::*;

verus! {

/// What the whole table currently shows: the pot, the highest stake
/// posted this street, and the deepest total any seat can reach.
#[derive(Debug, Clone, Copy, PartialEq, Eq, Structural)]
pub struct Table {
    pub pot: u32,
    pub table_stake: u32,
    pub table_stack: u32,
}

impl Table {
    /// The highest stake posted this street.
    pub open spec fn spec_stake(self) -> u32 {
        self.table_stake
    }

    /// The deepest total a seat can reach.
    pub open spec fn spec_stack(self) -> u32 {
        self.table_stack
    }

    /// Open a table with the given betting caps and an empty pot.
    pub fn new(table_stake: u32, table_stack: u32) -> (t: Table)
        ensures
            t.pot == 0,
            t.spec_stake() == table_stake,
            t.spec_stack() == table_stack,
    {
        Table { pot: 0, table_stake, table_stack }
    }

    /// The highest stake posted this street.
    pub fn stake(&self) -> (r: u32)
        ensures
            r == self.spec_stake(),
    {
        self.table_stake
    }

    /// The deepest total a seat can reach.
    pub fn stack(&self) -> (r: u32)
        ensures
            r == self.spec_stack(),
    {
        self.table_stack
    }
}

} // verus!
