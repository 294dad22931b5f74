//! A seat at the table: its stack, its stake this street, and what
//! actions it may take against the current table state.

use vstd::prelude::*;
use crate::cards::hand::Hand;
use crate::engine::action::Action;
use crate::engine::table::Table;

verus! {

/// Whether a seat is still contesting the pot.
#[derive(Debug, Clone, Copy, PartialEq, Eq, Structural)]
pub enum BetStatus {
    Playing,
    Shoved,
    Folded,
}

/// One player's seat.
#[derive(Debug, Clone, Copy, PartialEq, Eq, Structural)]
pub struct Seat {
    pub index: usize,
    pub stack: u32,
    pub stake: u32,
    pub status: BetStatus,
    pub hole: Hand,
}

impl Seat {
    /// A fresh seat: full stack, nothing staked, still playing, no cards.
    pub fn new(stack: u32, position: usize) -> (s: Seat)
        ensures
            s.index == position,
            s.stack == stack,
            s.stake == 0,
            s.status == BetStatus::Playing,
            s.hole.wf(),
            s.hole.size() == 0,
    {
        Seat { index: position, stack, stake: 0, status: BetStatus::Playing, hole: Hand::empty() }
    }

    /// The seat's hole cards.
    pub fn cards(&self) -> (r: Hand)
        ensures
            r == self.hole,
    {
        self.hole
    }

    /// Chips owed to match the table's current stake.
    pub open spec fn spec_to_call(self, table: Table) -> int {
        table.spec_stake() - self.stake
    }

    /// The most this seat can still push in: its stack, capped by the
    /// deepest total the table supports.
    pub open spec fn spec_to_shove(self, table: Table) -> int {
        let room = table.spec_stack() - self.stake;
        if self.stack <= room {
            self.stack as int
        } else {
            room
        }
    }

    /// The chips owed to call.
    pub fn to_call(&self, table: &Table) -> (r: u32)
        requires
            self.stake <= table.spec_stake(),
        ensures
            r == self.spec_to_call(*table),
    {
        table.stake() - self.stake
    }

    /// The chips moved by shoving.
    pub fn to_shove(&self, table: &Table) -> (r: u32)
        requires
            self.stake <= table.spec_stack(),
        ensures
            r == self.spec_to_shove(*table),
    {
        let room = table.stack() - self.stake;
        if self.stack <= room {
            self.stack
        } else {
            room
        }
    }

    /// The chips moved by a minimum raise, capped by the shove amount.
    /// The five-chip ceiling is the engine's fixed raise step: raise
    /// sizing beyond that step is left to the learner's odds grid.
    pub fn to_raise(&self, table: &Table) -> (r: u32)
        requires
            self.stake <= table.spec_stack(),
            self.spec_to_shove(*table) >= 1,
        ensures
            r == if self.spec_to_shove(*table) - 1 <= 5 {
                self.spec_to_shove(*table) - 1
            } else {
                5int
            },
    {
        let shove = self.to_shove(table);
        if shove - 1 <= 5 {
            shove - 1
        } else {
            5
        }
    }

    /// May this seat check: nothing more is owed.
    pub fn can_check(&self, table: &Table) -> (r: bool)
        ensures
            r == (self.stake == table.spec_stake()),
    {
        self.stake == table.stake()
    }

    /// May this seat shove: it can still move chips.
    pub fn can_shove(&self, table: &Table) -> (r: bool)
        requires
            self.stake <= table.spec_stack(),
        ensures
            r == (self.spec_to_shove(*table) > 0),
    {
        self.to_shove(table) > 0
    }

    /// May this seat fold: it faces a live bet.
    pub fn can_fold(&self, table: &Table) -> (r: bool)
        requires
            self.stake <= table.spec_stake(),
        ensures
            r == (self.spec_to_call(*table) > 0),
    {
        self.to_call(table) > 0
    }

    /// May this seat raise: a raise of at least one chip fits under the
    /// shove amount.
    pub fn can_raise(&self, table: &Table) -> (r: bool)
        requires
            self.stake <= table.spec_stake(),
            self.stake <= table.spec_stack(),
        ensures
            r == (self.spec_to_shove(*table) > self.spec_to_call(*table) + 1),
    {
        (self.to_shove(table) as u64) > (self.to_call(table) as u64) + 1
    }

    /// May this seat call: it faces a bet and could raise beyond it.
    pub fn can_call(&self, table: &Table) -> (r: bool)
        requires
            self.stake <= table.spec_stake(),
            self.stake <= table.spec_stack(),
        ensures
            r == (self.spec_to_call(*table) > 0 && self.spec_to_shove(*table) > self.spec_to_call(
                *table,
            ) + 1),
    {
        self.can_fold(table) && self.can_raise(table)
    }

    /// The actions this seat may legally take against the table, in a
    /// fixed order: check, fold, call, shove, raise.
    pub open spec fn spec_valid_actions(self, table: Table) -> Seq<Action> {
        let checks: Seq<Action> = if self.stake == table.spec_stake() {
            seq![Action::Check(self.index)]
        } else {
            Seq::empty()
        };
        let folds: Seq<Action> = if self.spec_to_call(table) > 0 {
            seq![Action::Fold(self.index)]
        } else {
            Seq::empty()
        };
        let calls: Seq<Action> = if self.spec_to_call(table) > 0 && self.spec_to_shove(table)
            > self.spec_to_call(table) + 1 {
            seq![Action::Call(self.index, self.spec_to_call(table) as u32)]
        } else {
            Seq::empty()
        };
        let shoves: Seq<Action> = if self.spec_to_shove(table) > 0 {
            seq![Action::Shove(self.index, self.spec_to_shove(table) as u32)]
        } else {
            Seq::empty()
        };
        let raises: Seq<Action> = if self.spec_to_shove(table) > self.spec_to_call(table) + 1 {
            seq![
                Action::Raise(
                    self.index,
                    if self.spec_to_shove(table) - 1 <= 5 {
                        (self.spec_to_shove(table) - 1) as u32
                    } else {
                        5u32
                    },
                ),
            ]
        } else {
            Seq::empty()
        };
        checks + folds + calls + shoves + raises
    }

    /// Every action this seat may legally take, in a fixed order:
    /// check, fold, call, shove, raise.
    pub fn valid_actions(&self, table: &Table) -> (actions: Vec<Action>)
        requires
            self.stake <= table.spec_stake(),
            self.stake <= table.spec_stack(),
        ensures
            actions@ == self.spec_valid_actions(*table),
    {
        let mut actions: Vec<Action> = Vec::new();
        if self.can_check(table) {
            actions.push(Action::Check(self.index));
        }
        if self.can_fold(table) {
            actions.push(Action::Fold(self.index));
        }
        if self.can_call(table) {
            actions.push(Action::Call(self.index, self.to_call(table)));
        }
        if self.can_shove(table) {
            actions.push(Action::Shove(self.index, self.to_shove(table)));
        }
        if self.can_raise(table) {
            actions.push(Action::Raise(self.index, self.to_raise(table)));
        }
        proof {
            assert(actions@ =~= self.spec_valid_actions(*table));
        }
        actions
    }
}

} // verus!
