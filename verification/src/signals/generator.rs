//! Structured trade signals, ready for risk checks and execution.
use vstd::prelude::*;

use crate::config::Config;
use crate::num::Real;
use crate::optimizer::kelly::{chosen, is_identifier, is_order, KellyOptimizer};
use crate::optimizer::types::{
    any_leg_sized, combo_config_of, constraints_of, AssetDistribution, ComboConfig, ComboOrder,
    PortfolioConstraints, PortfolioOptimizer,
};
use crate::risk::manager::PortfolioState;

verus! {

/// Trade direction.
#[derive(Debug, Clone, Copy, PartialEq, Eq, Structural)]
pub enum Direction {
    Long,
    Short,
}

impl Direction {
    pub fn is_long(&self) -> (r: bool)
        ensures
            r == (*self == Direction::Long),
    {
        matches!(self, Direction::Long)
    }

    /// The text shown for the direction.
    pub fn label(&self) -> (r: &'static str)
        ensures
            r@ == match self {
                Direction::Long => "LONG"@,
                Direction::Short => "SHORT"@,
            },
    {
        match self {
            Direction::Long => "LONG",
            Direction::Short => "SHORT",
        }
    }
}

/// A fully specified trade signal for one asset, as the risk manager and the
/// executor take it.
#[derive(Debug, Clone)]
pub struct TradeSignal {
    pub signal_id: String,
    pub generated_at_ms: u64,
    pub asset: String,
    pub asset_index: usize,
    pub direction: Direction,
    pub entry_price: Real,
    pub stop_loss: Real,
    pub take_profit: Real,
    pub leverage: Real,
    pub position_size_usd: Real,
    pub expected_value: Real,
    pub signal_confidence: Real,
    pub predicted_vol_4h: Real,
    pub directional_edge: Real,
    pub regime_label: String,
    pub ensemble_p_up: Real,
    pub ensemble_p_down: Real,
    pub ensemble_confidence: Real,
}

impl TradeSignal {
    /// The distance to the target over the distance to the stop; zero where the
    /// stop is at the entry.
    pub open spec fn spec_risk_reward(&self) -> Real {
        let gain = (self.take_profit - self.entry_price).abs();
        let loss = (self.stop_loss - self.entry_price).abs();
        if loss < Real::ratio(1, 10_000_000_000) {
            Real::whole(0)
        } else {
            gain / loss
        }
    }

    /// The distance to the target over the distance to the stop; zero where the
    /// stop is at the entry.
    #[verifier::when_used_as_spec(spec_risk_reward)]
    pub fn risk_reward(&self) -> (r: Real)
        ensures
            r == self.spec_risk_reward(),
    {
        let gain = (self.take_profit - self.entry_price).abs();
        let loss = (self.stop_loss - self.entry_price).abs();
        if loss < Real::ratio(1, 10_000_000_000) {
            return Real::whole(0);
        }
        gain / loss
    }

    /// The distance to the stop as a fraction of the entry price; zero where the
    /// entry price is.
    pub open spec fn stop_share(&self) -> Real {
        if self.entry_price < Real::ratio(1, 10_000_000_000) {
            Real::whole(0)
        } else {
            (self.stop_loss - self.entry_price).abs() / self.entry_price
        }
    }

    /// The distance to the stop as a fraction of the entry price; zero where the
    /// entry price is.
    pub fn stop_distance_pct(&self) -> (r: Real)
        ensures
            r == self.stop_share(),
    {
        if self.entry_price < Real::ratio(1, 10_000_000_000) {
            return Real::whole(0);
        }
        (self.stop_loss - self.entry_price).abs() / self.entry_price
    }
}

/// The constraints that the configuration sets.
pub open spec fn config_constraints(config: Config) -> PortfolioConstraints {
    constraints_of(
        config.max_portfolio_leverage,
        config.max_single_asset_weight,
        config.kelly_fraction,
    )
}

/// The joint order for the assets' distributions under the configuration; nothing
/// where no asset is worth trading.
pub fn generate_combo(
    asset_dists: &[AssetDistribution],
    portfolio: &PortfolioState,
    config: &Config,
    now_ms: u64,
) -> (r: Option<ComboOrder>)
    requires
        any_leg_sized(asset_dists@, portfolio.nav, config_constraints(*config))
            ==> config_constraints(*config).admissible(),
    ensures
        r is None <==> chosen(
            asset_dists@,
            portfolio.nav,
            config_constraints(*config),
            combo_config_of(*config),
        ).len() == 0,
        r matches Some(order) ==> is_order(
            order,
            asset_dists@,
            portfolio.nav,
            config_constraints(*config),
            combo_config_of(*config),
        ) && is_identifier(order.combo_id@) && order.generated_at_ms == now_ms,
{
    let constraints = PortfolioConstraints::from_risk_config(
        config.max_portfolio_leverage,
        config.max_single_asset_weight,
        config.kelly_fraction,
    );
    let combo_config = ComboConfig::from_config(config);
    KellyOptimizer::new().optimize_combo(
        asset_dists,
        portfolio,
        &constraints,
        &combo_config,
        now_ms,
    )
}

} // verus!
