//! Hidden Markov model of market regimes.
pub mod laws;
pub mod model;
pub mod regime;
pub mod training;
pub mod viterbi;

pub use model::HmmModel;
pub use regime::{Regime, RegimeState};
