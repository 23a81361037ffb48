//! Verified core of a perpetual-futures trading system.
pub mod assets;
pub mod backtest;
pub mod config;
pub mod data;
pub mod ensemble;
pub mod error;
pub mod estimation;
pub mod execution;
pub mod features;
pub mod hmm;
pub mod live;
pub mod ml;
pub mod num;
pub mod optimizer;
pub mod orderbook;
pub mod risk;
pub mod signals;
pub mod stats;
pub mod text;
