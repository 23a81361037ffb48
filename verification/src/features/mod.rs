//! Features of prices, trades and funding.
pub mod assembler;
pub mod frequency;
pub mod funding;
pub mod kalman;
pub mod laws;
pub mod rows;
pub mod technical;
