//! Settlement of a finished hand.

pub mod payout;
pub mod showdown;
