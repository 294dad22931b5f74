//! The table engine: seats, actions, and street-by-street play.

pub mod action;
pub mod payoff;
pub mod seat;
pub mod showdown;
pub mod table;
