//! Resolution of a sealed-bid, capped token sale.
//!
//! Bidders seal their bids under the resolver's public key. The resolver opens
//! them, scores and ranks the bidders, and hands out a fixed supply of tokens
//! against a payment ceiling, filling the last winner only in part.
//!
//! All money is counted in whole sub-units, so every result is exact.

pub mod allocate;
pub mod auction;
pub mod amount;
pub mod bid;
pub mod hexcode;
pub mod payload;
pub mod rank;
pub mod sealed;
