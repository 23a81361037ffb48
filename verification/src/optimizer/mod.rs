//! From distributions to trade decisions.
//!
//! Per asset the optimizer maximizes expected log growth less a turnover
//! penalty, under a cap on the position fraction; over the portfolio it bounds
//! gross and net exposure, the number of legs and the total transaction cost.
pub mod exposure;
pub mod growth;
pub mod kelly;
pub mod laws;
pub mod legs;
pub mod subsets;
pub mod types;

pub use types::{
    AssetDistribution, ComboConfig, ComboOrder, OrderLeg, PortfolioConstraints, PortfolioOptimizer,
    TradeDecision,
};
