//! Trade signals.
pub mod generator;
