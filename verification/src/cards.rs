//! Card primitives: ranks, suits, cards, and the 64-bit hand bitboard.

pub mod card;
pub mod evaluator;
pub mod hand;
pub mod hands;
pub mod kicks;
pub mod observation;
pub mod rank;
pub mod ranking;
pub mod street;
pub mod strength;
pub mod suit;
