//! Risk limits, kill switches and pre-trade checks.
pub mod laws;
pub mod limits;
pub mod manager;
