//! Walk-forward backtesting.
//!
//! Historical bars run through the same estimators and fusion as live trading.
//! The history is divided into alternating training and test windows; on the
//! training window the estimators are warmed up, on the test window they are
//! only updated online while trades are simulated.
pub mod engine;
pub mod laws;
pub mod metrics;
pub mod openings;
pub mod pipeline;
pub mod ratios;

pub use engine::{BacktestBar, BacktestEngine, WalkForwardConfig};
pub use metrics::{BacktestResult, FoldResult, SimulatedTrade};
