//! A continuous double-auction matching engine.
//!
//! The exchange keeps per-client accounts (a cash balance plus per-instrument
//! share holdings) and, for each traded instrument, a two-sided limit order
//! book. Incoming orders match against resting orders under price-time
//! priority; each trade settles by atomically moving cash and shares between
//! the two counterparties.

pub mod book;
pub mod clients;
pub mod engine;
pub mod errors;
pub mod laws;
pub mod orders;
pub mod registry;
