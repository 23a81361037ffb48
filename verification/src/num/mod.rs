//! Binary64 arithmetic: the number type every other module computes with.
//!
//! A number is held as its IEEE 754 bit pattern. `model` says what a pattern
//! means and what the correctly rounded result of each operation is, `rounding`
//! proves the one rounding step that all operations share, `magnitude` computes
//! on patterns without a sign, and `ops` on signed numbers.
pub mod constants;
pub mod drift;
pub mod elementary;
pub mod linear;
pub mod magnitude;
pub mod model;
pub mod ops;
pub mod order;
pub mod rounding;
pub mod rules;
pub mod series;

pub use model::Real;
