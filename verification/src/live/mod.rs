//! What the trading loop computes between its calls to the exchange.
pub mod features;
pub mod laws;
pub mod positions;
pub mod tick;
pub mod training;
