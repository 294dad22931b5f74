//! A verified core for a No-Limit Texas Hold'em blueprint trainer.
//!
//! The crate covers the card primitives and hand evaluator, the
//! observation codec, the histogram / earth-mover metric used by the
//! hierarchical clustering passes, the discounted-regret learner, the
//! binary column dumps used for persistence, and showdown settlement.
//! All quantities are exact integers: probabilities and utilities are
//! carried in fixed-point units so that every arithmetic step is checked.
//! The binary dumps keep the interface's framing to the byte, but their
//! four-byte value fields carry these fixed-point words rather than
//! IEEE-754 floats, so dumps are not bit-compatible with float-valued
//! files; any float view belongs to the caller at the file boundary.

use vstd::prelude::*;

pub mod cards;
pub mod clustering;
pub mod engine;
pub mod gameplay;
pub mod mccfr;

verus! {

/// Number of distinct card ranks in a full deck.
pub const RANKS: u8 = 13;

/// Number of suits.
pub const SUITS: u8 = 4;

/// Number of cards in a full deck.
pub const DECK: u8 = 52;

/// Number of equal-width river equity buckets.
pub const EQUITIES: u32 = 100;

} // verus!
