//! Configurable risk limits and kill-switch rules.
//!
//! A kill switch fires when the portfolio's drawdown, its leverage, the realized
//! volatility or the estimators' predictive likelihood leaves its limits. The
//! action of the most severe rule that fires is returned.
use vstd::prelude::*;

use crate::num::Real;

verus! {

/// Portfolio-level and per-asset risk limits.
#[derive(Debug, Clone, Copy)]
pub struct RiskLimits {
    /// Sum of the absolute positions over net asset value.
    pub max_gross_exposure: Real,
    /// Net position over net asset value.
    pub max_net_exposure: Real,
    /// Leverage cap per asset.
    pub max_leverage: Real,
    /// Notional of a single asset over net asset value.
    pub max_single_asset_weight: Real,
    /// Daily drawdown as a fraction.
    pub max_daily_drawdown: Real,
    /// Drawdown from the peak as a fraction.
    pub max_portfolio_drawdown: Real,
    /// Gross leverage at which everything is closed.
    pub hard_leverage_limit: Real,
    pub min_signal_confidence: Real,
    pub min_risk_reward: Real,
    pub max_concurrent_positions: usize,
    pub target_daily_vol: Real,
    /// How many times the target volatility is too much.
    pub vol_kill_multiplier: Real,
    /// The least predictive log likelihood of a healthy estimator.
    pub min_log_predictive: Real,
    /// The largest correlation between two positions.
    pub max_pairwise_correlation: Real,
    pub kelly_fraction: Real,
}

/// Settings that override the default limits where they are given.
#[derive(Debug, Clone, Copy)]
pub struct RiskSettings {
    pub max_gross_exposure: Option<Real>,
    pub max_net_exposure: Option<Real>,
    pub max_leverage: Option<Real>,
    pub max_single_asset_weight: Option<Real>,
    pub max_daily_drawdown: Option<Real>,
    pub max_portfolio_drawdown: Option<Real>,
    pub hard_leverage_limit: Option<Real>,
    pub min_signal_confidence: Option<Real>,
    pub min_risk_reward: Option<Real>,
    pub max_concurrent_positions: Option<usize>,
    pub target_daily_vol: Option<Real>,
    pub vol_kill_multiplier: Option<Real>,
    pub min_log_predictive: Option<Real>,
    pub max_pairwise_correlation: Option<Real>,
    pub kelly_fraction: Option<Real>,
}

/// The setting, or the default where it is missing.
pub open spec fn spec_setting(x: Option<Real>, default: Real) -> Real {
    match x {
        Some(v) => v,
        None => default,
    }
}

#[verifier::when_used_as_spec(spec_setting)]
fn setting(x: Option<Real>, default: Real) -> (r: Real)
    ensures
        r == spec_setting(x, default),
{
    match x {
        Some(v) => v,
        None => default,
    }
}

impl RiskLimits {
    /// The limits that the settings give, with defaults for what is missing.
    pub fn from_settings(s: &RiskSettings) -> (r: RiskLimits)
        ensures
            r.max_gross_exposure == spec_setting(s.max_gross_exposure, Real::whole(3)),
            r.max_net_exposure == spec_setting(s.max_net_exposure, Real::ratio(3, 2)),
            r.max_leverage == spec_setting(s.max_leverage, Real::whole(5)),
            r.max_single_asset_weight == spec_setting(
                s.max_single_asset_weight,
                Real::ratio(30, 100),
            ),
            r.max_daily_drawdown == spec_setting(s.max_daily_drawdown, Real::ratio(8, 100)),
            r.max_portfolio_drawdown == spec_setting(
                s.max_portfolio_drawdown,
                Real::ratio(15, 100),
            ),
            r.hard_leverage_limit == spec_setting(s.hard_leverage_limit, Real::whole(5)),
            r.min_signal_confidence == spec_setting(s.min_signal_confidence, Real::ratio(60, 100)),
            r.min_risk_reward == spec_setting(s.min_risk_reward, Real::ratio(3, 2)),
            r.max_concurrent_positions == match s.max_concurrent_positions {
                Some(n) => n,
                None => 5,
            },
            r.target_daily_vol == spec_setting(s.target_daily_vol, Real::ratio(15, 1000)),
            r.vol_kill_multiplier == spec_setting(s.vol_kill_multiplier, Real::whole(3)),
            r.min_log_predictive == spec_setting(s.min_log_predictive, Real::whole(10).neg()),
            r.max_pairwise_correlation == spec_setting(
                s.max_pairwise_correlation,
                Real::ratio(75, 100),
            ),
            r.kelly_fraction == spec_setting(s.kelly_fraction, Real::ratio(3, 10)),
    {
        RiskLimits {
            max_gross_exposure: setting(s.max_gross_exposure, Real::whole(3)),
            max_net_exposure: setting(s.max_net_exposure, Real::ratio(3, 2)),
            max_leverage: setting(s.max_leverage, Real::whole(5)),
            max_single_asset_weight: setting(s.max_single_asset_weight, Real::ratio(30, 100)),
            max_daily_drawdown: setting(s.max_daily_drawdown, Real::ratio(8, 100)),
            max_portfolio_drawdown: setting(s.max_portfolio_drawdown, Real::ratio(15, 100)),
            hard_leverage_limit: setting(s.hard_leverage_limit, Real::whole(5)),
            min_signal_confidence: setting(s.min_signal_confidence, Real::ratio(60, 100)),
            min_risk_reward: setting(s.min_risk_reward, Real::ratio(3, 2)),
            max_concurrent_positions: match s.max_concurrent_positions {
                Some(n) => n,
                None => 5,
            },
            target_daily_vol: setting(s.target_daily_vol, Real::ratio(15, 1000)),
            vol_kill_multiplier: setting(s.vol_kill_multiplier, Real::whole(3)),
            min_log_predictive: setting(s.min_log_predictive, Real::whole(10).neg()),
            max_pairwise_correlation: setting(s.max_pairwise_correlation, Real::ratio(75, 100)),
            kelly_fraction: setting(s.kelly_fraction, Real::ratio(3, 10)),
        }
    }
}

/// Why a kill switch fired, with the numbers to show.
#[derive(Debug, Clone, Copy)]
pub enum KillReason {
    /// Drawdown from the peak, in percent.
    PortfolioDrawdown { percent: Real, limit_percent: Real },
    /// Gross leverage above the hard limit.
    LeverageFarExceeded { gross_leverage: Real, limit: Real },
    /// Realized volatility above a multiple of its target.
    RealizedVol { realized_vol: Real, multiplier: Real, target: Real },
    /// Predictive log likelihood below its threshold.
    EstimatorInstability { log_predictive: Real, threshold: Real },
    /// Daily drawdown, in percent.
    DailyDrawdown { percent: Real, limit_percent: Real },
    /// Gross leverage above the limit.
    LeverageExceeded { gross_leverage: Real, limit: Real },
}

/// The action to take when a kill switch fires.
#[derive(Debug, Clone, Copy)]
pub enum KillAction {
    /// Open no new positions; keep existing ones.
    HaltNewTrades { reason: KillReason },
    /// Close all positions immediately.
    CloseAll { reason: KillReason },
    /// Reduce all positions to a fraction of their size.
    ReduceAll { fraction: Real, reason: KillReason },
}

/// The action of the most severe kill switch that fires.
pub open spec fn kill_action(
    limits: RiskLimits,
    drawdown: Real,
    gross_leverage: Real,
    realized_vol: Real,
    min_log_predictive: Real,
) -> Option<KillAction> {
    if drawdown > limits.max_portfolio_drawdown {
        Some(
            KillAction::CloseAll {
                reason: KillReason::PortfolioDrawdown {
                    percent: drawdown * Real::whole(100),
                    limit_percent: limits.max_portfolio_drawdown * Real::whole(100),
                },
            },
        )
    } else if gross_leverage > limits.hard_leverage_limit {
        Some(
            KillAction::CloseAll {
                reason: KillReason::LeverageFarExceeded {
                    gross_leverage,
                    limit: limits.hard_leverage_limit,
                },
            },
        )
    } else if realized_vol > limits.target_daily_vol * limits.vol_kill_multiplier {
        Some(
            KillAction::ReduceAll {
                fraction: Real::ratio(1, 2),
                reason: KillReason::RealizedVol {
                    realized_vol,
                    multiplier: limits.vol_kill_multiplier,
                    target: limits.target_daily_vol,
                },
            },
        )
    } else if min_log_predictive < limits.min_log_predictive {
        Some(
            KillAction::ReduceAll {
                fraction: Real::ratio(1, 2),
                reason: KillReason::EstimatorInstability {
                    log_predictive: min_log_predictive,
                    threshold: limits.min_log_predictive,
                },
            },
        )
    } else if drawdown > limits.max_daily_drawdown {
        Some(
            KillAction::HaltNewTrades {
                reason: KillReason::DailyDrawdown {
                    percent: drawdown * Real::whole(100),
                    limit_percent: limits.max_daily_drawdown * Real::whole(100),
                },
            },
        )
    } else if gross_leverage > limits.max_gross_exposure {
        Some(
            KillAction::HaltNewTrades {
                reason: KillReason::LeverageExceeded {
                    gross_leverage,
                    limit: limits.max_gross_exposure,
                },
            },
        )
    } else {
        None
    }
}

/// How drastic an action is.
pub open spec fn severity(action: Option<KillAction>) -> int {
    match action {
        None => 0,
        Some(KillAction::HaltNewTrades { .. }) => 1,
        Some(KillAction::ReduceAll { .. }) => 2,
        Some(KillAction::CloseAll { .. }) => 3,
    }
}

/// Everything is closed exactly when the drawdown from the peak or the hard
/// leverage limit is exceeded; positions are reduced exactly
/// when that is not so and volatility or an estimator is out of bounds; new
/// trades are halted exactly when none of these holds and a daily limit is
/// exceeded.
pub proof fn kill_switch_severity(
    limits: RiskLimits,
    drawdown: Real,
    gross_leverage: Real,
    realized_vol: Real,
    min_log_predictive: Real,
)
    ensures
        ({
            let s = severity(
                kill_action(limits, drawdown, gross_leverage, realized_vol, min_log_predictive),
            );
            let close = drawdown > limits.max_portfolio_drawdown || gross_leverage
                > limits.hard_leverage_limit;
            let reduce = realized_vol > limits.target_daily_vol * limits.vol_kill_multiplier
                || min_log_predictive < limits.min_log_predictive;
            let halt = drawdown > limits.max_daily_drawdown || gross_leverage
                > limits.max_gross_exposure;
            &&& s == 3 <==> close
            &&& s == 2 <==> !close && reduce
            &&& s == 1 <==> !close && !reduce && halt
            &&& s == 0 <==> !close && !reduce && !halt
        }),
{
}

/// With all else equal, a deeper drawdown never leads to a milder action.
pub proof fn kill_switch_monotone(
    limits: RiskLimits,
    less: Real,
    more: Real,
    gross_leverage: Real,
    realized_vol: Real,
    min_log_predictive: Real,
)
    requires
        less <= more,
    ensures
        severity(kill_action(limits, less, gross_leverage, realized_vol, min_log_predictive))
            <= severity(kill_action(limits, more, gross_leverage, realized_vol, min_log_predictive)),
{
}

/// Evaluates kill-switch rules.
pub struct KillSwitchEvaluator<'a> {
    pub limits: &'a RiskLimits,
}

impl<'a> KillSwitchEvaluator<'a> {
    pub fn new(limits: &'a RiskLimits) -> (r: Self)
        ensures
            r.limits == limits,
    {
        Self { limits }
    }

    /// The action of the most severe kill switch that fires, if any does.
    /// `min_log_predictive` is the worst value over the active estimators; the
    /// number of positions plays no part.
    pub fn evaluate(
        &self,
        drawdown: Real,
        gross_leverage: Real,
        realized_vol: Real,
        min_log_predictive: Real,
        n_positions: usize,
    ) -> (r: Option<KillAction>)
        ensures
            r == kill_action(
                *self.limits,
                drawdown,
                gross_leverage,
                realized_vol,
                min_log_predictive,
            ),
    {
        if drawdown > self.limits.max_portfolio_drawdown {
            return Some(
                KillAction::CloseAll {
                    reason: KillReason::PortfolioDrawdown {
                        percent: drawdown * Real::whole(100),
                        limit_percent: self.limits.max_portfolio_drawdown * Real::whole(100),
                    },
                },
            );
        }
        if gross_leverage > self.limits.hard_leverage_limit {
            return Some(
                KillAction::CloseAll {
                    reason: KillReason::LeverageFarExceeded {
                        gross_leverage,
                        limit: self.limits.hard_leverage_limit,
                    },
                },
            );
        }
        if realized_vol > self.limits.target_daily_vol * self.limits.vol_kill_multiplier {
            return Some(
                KillAction::ReduceAll {
                    fraction: Real::ratio(1, 2),
                    reason: KillReason::RealizedVol {
                        realized_vol,
                        multiplier: self.limits.vol_kill_multiplier,
                        target: self.limits.target_daily_vol,
                    },
                },
            );
        }
        if min_log_predictive < self.limits.min_log_predictive {
            return Some(
                KillAction::ReduceAll {
                    fraction: Real::ratio(1, 2),
                    reason: KillReason::EstimatorInstability {
                        log_predictive: min_log_predictive,
                        threshold: self.limits.min_log_predictive,
                    },
                },
            );
        }
        if drawdown > self.limits.max_daily_drawdown {
            return Some(
                KillAction::HaltNewTrades {
                    reason: KillReason::DailyDrawdown {
                        percent: drawdown * Real::whole(100),
                        limit_percent: self.limits.max_daily_drawdown * Real::whole(100),
                    },
                },
            );
        }
        if gross_leverage > self.limits.max_gross_exposure {
            return Some(
                KillAction::HaltNewTrades {
                    reason: KillReason::LeverageExceeded {
                        gross_leverage,
                        limit: self.limits.max_gross_exposure,
                    },
                },
            );
        }
        None
    }
}

/// Exponentially weighted estimator of realized volatility.
#[derive(Debug, Clone, Copy)]
pub struct EwmaVolEstimator {
    pub ema_var: Real,
    pub decay: Real,
    pub initialized: bool,
}

impl EwmaVolEstimator {
    /// An estimator without observations. A higher `decay` in `(0, 1)` adapts
    /// more slowly.
    pub fn new(decay: Real) -> (r: Self)
        ensures
            r == (EwmaVolEstimator { ema_var: Real::whole(0), decay, initialized: false }),
    {
        Self { ema_var: Real::whole(0), decay, initialized: false }
    }

    /// The estimator after one more log return.
    pub open spec fn updated(self, ret: Real) -> EwmaVolEstimator {
        EwmaVolEstimator {
            ema_var: if self.initialized {
                self.decay * self.ema_var + (Real::whole(1) - self.decay) * ret * ret
            } else {
                ret * ret
            },
            decay: self.decay,
            initialized: true,
        }
    }

    /// Takes a log return and gives the volatility estimate.
    pub fn update(&mut self, ret: Real) -> (r: Real)
        ensures
            *final(self) == old(self).updated(ret),
            r == final(self).ema_var.sqrt(),
    {
        if !self.initialized {
            self.ema_var = ret * ret;
            self.initialized = true;
        } else {
            self.ema_var = self.decay * self.ema_var + (Real::whole(1) - self.decay) * ret * ret;
        }
        self.ema_var.sqrt()
    }

    /// The volatility estimate.
    pub fn current_vol(&self) -> (r: Real)
        ensures
            r == self.ema_var.sqrt(),
    {
        self.ema_var.sqrt()
    }
}

} // verus!
