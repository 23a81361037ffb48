//! Inputs, constraints and outputs of the optimizer.
use vstd::prelude::*;

use crate::config::Config;
use crate::ensemble::EnsembleDistribution;
use crate::num::Real;
use crate::risk::manager::PortfolioState;
use crate::signals::generator::Direction;

verus! {

/// A fully computed trade decision.
#[derive(Debug, Clone)]
pub struct TradeDecision {
    pub asset: String,
    pub direction: Direction,
    /// Position as a share of net asset value.
    pub position_fraction: Real,
    /// Leverage multiplier.
    pub leverage: Real,
    /// Notional.
    pub position_size_usd: Real,
    /// Expected log growth per bar.
    pub expected_log_growth: Real,
    /// Confidence of the ensemble.
    pub confidence: Real,
    /// What the distribution looks like.
    pub regime_label: String,
}

impl TradeDecision {
    pub fn is_long(&self) -> (r: bool)
        ensures
            r == (self.direction == Direction::Long),
    {
        matches!(self.direction, Direction::Long)
    }
}

/// Constraints per asset and over the portfolio, as fractions of net asset
/// value unless noted.
#[derive(Debug, Clone, Copy)]
pub struct PortfolioConstraints {
    /// Largest fraction in one asset.
    pub max_position_fraction: Real,
    /// Largest sum of absolute fractions.
    pub max_gross_exposure: Real,
    /// Largest absolute sum of signed fractions.
    pub max_net_exposure: Real,
    /// Leverage cap per asset.
    pub max_leverage: Real,
    /// One-way cost in hundredths of a percent.
    pub transaction_cost_bps: Real,
    /// Weight of turnover in the objective.
    pub turnover_penalty: Real,
    /// Multiplier of the full Kelly fraction.
    pub kelly_fraction: Real,
    /// Least confidence of the ensemble to open a position.
    pub min_confidence: Real,
}

impl PortfolioConstraints {
    /// The constraints that a leverage cap, a weight cap and a Kelly multiplier
    /// imply.
    pub fn from_risk_config(max_lev: Real, max_weight: Real, kelly_frac: Real) -> (r: Self)
        ensures
            r == constraints_of(max_lev, max_weight, kelly_frac),
    {
        Self {
            max_position_fraction: max_weight,
            max_gross_exposure: max_lev,
            max_net_exposure: max_lev * Real::ratio(6, 10),
            max_leverage: max_lev,
            transaction_cost_bps: Real::whole(5),
            turnover_penalty: Real::ratio(1, 1000),
            kelly_fraction: kelly_frac,
            min_confidence: Real::ratio(55, 100),
        }
    }

    /// The interval that fractions are moved into is not empty.
    pub open spec fn bounds_positions(&self) -> bool {
        self.max_position_fraction.neg() <= self.max_position_fraction
    }

    /// The intervals that fractions and leverage are moved into are not empty.
    pub open spec fn admissible(&self) -> bool {
        &&& self.bounds_positions()
        &&& Real::whole(1) <= self.max_leverage
    }
}

/// The constraints that a leverage cap, a weight cap and a Kelly multiplier
/// imply.
pub open spec fn constraints_of(
    max_lev: Real,
    max_weight: Real,
    kelly_frac: Real,
) -> PortfolioConstraints {
    PortfolioConstraints {
        max_position_fraction: max_weight,
        max_gross_exposure: max_lev,
        max_net_exposure: max_lev * Real::ratio(6, 10),
        max_leverage: max_lev,
        transaction_cost_bps: Real::whole(5),
        turnover_penalty: Real::ratio(1, 1000),
        kelly_fraction: kelly_frac,
        min_confidence: Real::ratio(55, 100),
    }
}

/// What the optimizer knows of one asset.
#[derive(Debug, Clone)]
pub struct AssetDistribution {
    pub asset: String,
    pub ensemble: EnsembleDistribution,
    /// Signed position held now, as a fraction of net asset value.
    pub current_fraction: Real,
    pub entry_price: Real,
    /// Estimated transaction cost in hundredths of a percent.
    pub estimated_tc_bps: Real,
}

impl AssetDistribution {
    pub open spec fn spec_stop_distance_fraction(&self) -> Real {
        Real::whole(2) * self.ensemble.predictive_std
    }

    /// Distance of the stop as a fraction of the entry price: two standard
    /// deviations.
    #[verifier::when_used_as_spec(spec_stop_distance_fraction)]
    pub fn stop_distance_fraction(&self) -> (r: Real)
        ensures
            r == self.spec_stop_distance_fraction(),
    {
        Real::whole(2) * self.ensemble.predictive_std
    }

    /// What the distribution looks like.
    pub fn regime_label(&self) -> (r: &'static str)
        ensures
            r@ == self.ensemble.regime(),
    {
        self.ensemble.regime_description()
    }
}

/// Limits of one joint order.
#[derive(Debug, Clone, Copy)]
pub struct ComboConfig {
    /// Most legs in one order.
    pub max_assets: usize,
    /// Budget for the transaction costs of all legs, in hundredths of a percent.
    pub max_total_tc_bps: Real,
    /// Most legs that change a position.
    pub max_traded_assets: usize,
    /// Least expected log growth of a leg.
    pub min_leg_elg: Real,
    /// Search all subsets where there are few candidates.
    pub enumerate_subsets: bool,
}

impl Default for ComboConfig {
    fn default() -> (r: Self)
        ensures
            r.max_assets == 3,
            r.max_total_tc_bps == Real::whole(25),
            r.max_traded_assets == 3,
            r.min_leg_elg == Real::whole(0),
            r.enumerate_subsets,
    {
        Self {
            max_assets: 3,
            max_total_tc_bps: Real::whole(25),
            max_traded_assets: 3,
            min_leg_elg: Real::whole(0),
            enumerate_subsets: true,
        }
    }
}

impl ComboConfig {
    /// The limits that the configuration sets; every leg may be traded.
    pub fn from_config(config: &Config) -> (r: Self)
        ensures
            r == combo_config_of(*config),
    {
        Self {
            max_assets: config.max_combo_assets,
            max_total_tc_bps: config.max_combo_tc_bps,
            max_traded_assets: config.max_combo_assets,
            min_leg_elg: Real::whole(0),
            enumerate_subsets: config.enumerate_combo_subsets,
        }
    }
}

/// The limits that the configuration sets; every leg may be traded.
pub open spec fn combo_config_of(config: Config) -> ComboConfig {
    ComboConfig {
        max_assets: config.max_combo_assets,
        max_total_tc_bps: config.max_combo_tc_bps,
        max_traded_assets: config.max_combo_assets,
        min_leg_elg: Real::whole(0),
        enumerate_subsets: config.enumerate_combo_subsets,
    }
}

/// One leg of a joint order.
#[derive(Debug, Clone)]
pub struct OrderLeg {
    pub asset: String,
    pub direction: Direction,
    /// Position as a share of net asset value.
    pub position_fraction: Real,
    pub position_size_usd: Real,
    pub leverage: Real,
    pub entry_price: Real,
    pub stop_loss: Real,
    pub take_profit: Real,
    pub expected_log_growth: Real,
    /// Transaction cost in hundredths of a percent.
    pub leg_tc_bps: Real,
    pub confidence: Real,
    pub regime_label: String,
}

impl OrderLeg {
    pub fn is_long(&self) -> (r: bool)
        ensures
            r == (self.direction == Direction::Long),
    {
        matches!(self.direction, Direction::Long)
    }
}

/// A joint order over several assets.
#[derive(Debug, Clone)]
pub struct ComboOrder {
    pub combo_id: String,
    pub generated_at_ms: u64,
    pub legs: Vec<OrderLeg>,
    pub total_expected_log_growth: Real,
    pub total_tc_bps: Real,
    pub gross_exposure_fraction: Real,
    pub net_exposure_fraction: Real,
}

impl ComboOrder {
    pub fn n_legs(&self) -> (r: usize)
        ensures
            r == self.legs@.len(),
    {
        self.legs.len()
    }
}

/// The distribution is confident and has a direction, so that a position is sized
/// for it.
pub open spec fn worth_sizing(d: EnsembleDistribution) -> bool {
    d.is_confident() && !(d.directional_edge().abs() < Real::ratio(5, 100))
}

/// A position is sized for some of the named distributions.
pub open spec fn any_sized(dists: Seq<(String, EnsembleDistribution)>, nav: Real) -> bool {
    !(nav < Real::whole(1)) && exists|i: int|
        0 <= i < dists.len() && worth_sizing((#[trigger] dists[i]).1)
}

/// The asset is confident enough for the constraints and has a direction, so that
/// a position is sized for it.
pub open spec fn leg_worth_sizing(ad: AssetDistribution, c: PortfolioConstraints) -> bool {
    ad.ensemble.is_confident() && ad.ensemble.confidence >= c.min_confidence
        && ad.ensemble.directional_edge().abs() >= Real::ratio(5, 100)
}

/// A position is sized for some of the assets.
pub open spec fn any_leg_sized(
    dists: Seq<AssetDistribution>,
    nav: Real,
    c: PortfolioConstraints,
) -> bool {
    !(nav < Real::whole(1)) && exists|i: int|
        0 <= i < dists.len() && leg_worth_sizing(#[trigger] dists[i], c)
}

/// Whether a position is sized for some of the assets. Only then do the
/// constraints have to be admissible.
pub fn sizes_any_leg(dists: &[AssetDistribution], nav: Real, c: &PortfolioConstraints) -> (r: bool)
    ensures
        r == any_leg_sized(dists@, nav, *c),
{
    if nav < Real::whole(1) {
        return false;
    }
    let mut i: usize = 0;
    while i < dists.len()
        invariant
            i <= dists@.len(),
            !(nav < Real::whole(1)),
            forall|j: int| 0 <= j < i ==> !leg_worth_sizing(#[trigger] dists@[j], *c),
        decreases dists@.len() - i,
    {
        let e = &dists[i].ensemble;
        if e.is_confident() && e.confidence >= c.min_confidence && e.directional_edge().abs()
            >= Real::ratio(5, 100) {
            assert(leg_worth_sizing(dists@[i as int], *c));
            return true;
        }
        i += 1;
    }
    false
}

/// Portfolio optimizer: from distributions and portfolio state to decisions.
pub trait PortfolioOptimizer {
    /// Single-period optimization.
    fn optimize(
        &self,
        distributions: &[(String, EnsembleDistribution)],
        portfolio: &PortfolioState,
        constraints: &PortfolioConstraints,
    ) -> Vec<TradeDecision>
        requires
            any_sized(distributions@, portfolio.nav) ==> constraints.admissible(),
    ;

    /// Multi-period optimization; single-period unless overridden.
    fn optimize_dp(
        &self,
        distributions: &[(String, EnsembleDistribution)],
        portfolio: &PortfolioState,
        constraints: &PortfolioConstraints,
        horizon: usize,
    ) -> Vec<TradeDecision>
        requires
            any_sized(distributions@, portfolio.nav) ==> constraints.admissible(),
    {
        self.optimize(distributions, portfolio, constraints)
    }

    /// Joint optimization over several assets.
    fn optimize_combo(
        &self,
        asset_dists: &[AssetDistribution],
        portfolio: &PortfolioState,
        constraints: &PortfolioConstraints,
        combo_config: &ComboConfig,
        now_ms: u64,
    ) -> Option<ComboOrder>
        requires
            any_leg_sized(asset_dists@, portfolio.nav, *constraints) ==> constraints.admissible(),
    ;
}

} // verus!
