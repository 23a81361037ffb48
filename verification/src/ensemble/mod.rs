//! Probabilistic signals and their fused distribution.
//!
//! The distribution itself is the regime: a low spread with a clear direction is
//! a trend, a low spread without one a consolidation, and a high spread chaos.
//! Nothing downstream needs a label.
pub mod distribution;
pub mod fusion;
pub mod history;
pub mod laws;
pub mod weights;

pub use distribution::{EnsembleDistribution, ProbabilisticSignal, SignalOutput};
