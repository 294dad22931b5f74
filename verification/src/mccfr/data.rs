//! The payload a game-tree node carries: the game state, opaque to
//! the learner, and the information-set key it falls into.

use vstd::prelude::*;
use crate::mccfr::bucket::Bucket;

verus! {

/// Which player acts, or whether the node belongs to chance.
#[derive(Debug, Clone, Copy, PartialEq, Eq, Structural)]
pub enum Player {
    Choice(usize),
    Chance,
}

/// The game state the learner walks over. The learner reads only who
/// is to act and, at a leaf, the payoff each seat takes; everything
/// else about the hand stays outside the tree.
#[derive(Debug, Clone, Copy, PartialEq, Eq, Structural)]
pub struct Game {
    pub turn: Player,
    pub payoff_zero: i64,
    pub payoff_one: i64,
}

impl Game {
    /// Who acts in this state.
    pub fn player(&self) -> (r: Player)
        ensures
            r == self.turn,
    {
        self.turn
    }

    /// The fixed-point payoff owed to a walker at a terminal state.
    pub fn payoff(&self, walker: Player) -> (r: i64)
        ensures
            r == if walker == Player::Choice(0usize) {
                self.payoff_zero
            } else {
                self.payoff_one
            },
    {
        if matches!(walker, Player::Choice(0usize)) {
            self.payoff_zero
        } else {
            self.payoff_one
        }
    }
}

/// A node's payload: the game state and its information-set key.
#[derive(Debug, Clone, Copy, PartialEq, Eq, Structural)]
pub struct Data {
    pub game: Game,
    pub bucket: Bucket,
}

impl Data {
    /// Pack a payload.
    pub fn new(game: Game, bucket: Bucket) -> (d: Data)
        ensures
            d.game == game,
            d.bucket == bucket,
    {
        Data { game, bucket }
    }

    /// The game state.
    pub fn game(&self) -> (r: Game)
        ensures
            r == self.game,
    {
        self.game
    }

    /// The information-set key.
    pub fn bucket(&self) -> (r: Bucket)
        ensures
            r == self.bucket,
    {
        self.bucket
    }

    /// The player to act in this payload's game state.
    pub fn player(&self) -> (r: Player)
        ensures
            r == self.game.turn,
    {
        self.game.player()
    }
}

} // verus!
