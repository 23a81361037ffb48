//! Execution realism: signal age, market impact after Almgren and Chriss, and
//! fill probability.
//!
//! A signal is executable when its edge exceeds the cost of spread and impact
//! and the book is deep enough to fill it.
use vstd::arithmetic::power2::pow2;
use vstd::prelude::*;

use crate::num::drift::lemma_at_most_one;
use crate::num::elementary::{
    exp, exp_is_monotone, exp_of, is_function, oracle, Elementary, Oracle,
};
use crate::num::magnitude::lemma_units_zero;
use crate::num::model::mag_units;
use crate::num::order::{
    lemma_add_grows, lemma_add_not_negative, lemma_div_monotone, lemma_round_bound, lemma_whole,
    lemma_whole_order,
};
use crate::num::Real;
use crate::signals::generator::{Direction, TradeSignal};

verus! {

/// Market impact parameters.
#[derive(Debug, Clone, Copy)]
pub struct ImpactParams {
    /// Coefficient of the permanent impact.
    pub eta: Real,
    /// Coefficient of the temporary impact.
    pub kappa: Real,
    /// Fraction of the daily volume used for scaling.
    pub adv_fraction: Real,
}

/// Parameters for liquid perpetuals.
pub open spec fn default_impact() -> ImpactParams {
    ImpactParams {
        eta: Real::ratio(1, 10),
        kappa: Real::ratio(3, 10),
        adv_fraction: Real::ratio(1, 1000),
    }
}

impl Default for ImpactParams {
    fn default() -> (r: Self)
        ensures
            r == default_impact(),
    {
        Self {
            eta: Real::ratio(1, 10),
            kappa: Real::ratio(3, 10),
            adv_fraction: Real::ratio(1, 1000),
        }
    }
}

impl ImpactParams {
    /// The parameters given, with defaults for what is missing.
    pub fn from_settings(
        eta: Option<Real>,
        kappa: Option<Real>,
        adv_fraction: Option<Real>,
    ) -> (r: Self)
        ensures
            r == (ImpactParams {
                eta: match eta {
                    Some(x) => x,
                    None => default_impact().eta,
                },
                kappa: match kappa {
                    Some(x) => x,
                    None => default_impact().kappa,
                },
                adv_fraction: match adv_fraction {
                    Some(x) => x,
                    None => default_impact().adv_fraction,
                },
            }),
    {
        let d = ImpactParams::default();
        Self {
            eta: match eta {
                Some(x) => x,
                None => d.eta,
            },
            kappa: match kappa {
                Some(x) => x,
                None => d.kappa,
            },
            adv_fraction: match adv_fraction {
                Some(x) => x,
                None => d.adv_fraction,
            },
        }
    }
}

/// Why a signal is not executable, with the numbers to show.
#[derive(Debug, Clone, Copy)]
pub enum RejectionReason {
    /// The signal is executable.
    Executable,
    SignalStale { age_ms: u64, max_ms: u64 },
    LowFillProbability { percent: Real },
    EdgeBelowCost { edge: Real, cost: Real },
}

impl RejectionReason {
    /// Short name of the reason; empty for an executable signal.
    pub fn label(&self) -> (r: &'static str)
        ensures
            r@ == match self {
                RejectionReason::Executable => ""@,
                RejectionReason::SignalStale { .. } => "signal_stale"@,
                RejectionReason::LowFillProbability { .. } => "low_fill_probability"@,
                RejectionReason::EdgeBelowCost { .. } => "edge_below_cost"@,
            },
    {
        match self {
            RejectionReason::Executable => "",
            RejectionReason::SignalStale { .. } => "signal_stale",
            RejectionReason::LowFillProbability { .. } => "low_fill_probability",
            RejectionReason::EdgeBelowCost { .. } => "edge_below_cost",
        }
    }
}

/// Execution metrics of a pending order.
#[derive(Debug, Clone, Copy)]
pub struct ExecutionMetrics {
    /// Entry price after spread and permanent impact.
    pub adjusted_entry_price: Real,
    /// Permanent impact as a fraction of the price.
    pub permanent_impact_pct: Real,
    /// Temporary impact as a fraction of the price.
    pub temporary_impact_pct: Real,
    /// Spread and both impacts.
    pub total_cost_pct: Real,
    /// Estimated probability of a fill.
    pub fill_probability: Real,
    /// Expected size of the fill.
    pub expected_fill_usd: Real,
    /// The edge exceeds the cost and a fill is likely enough.
    pub is_executable: bool,
    pub rejection_reason: RejectionReason,
}

/// The metrics of a signal that is not considered at all.
pub open spec fn not_executable(reason: RejectionReason) -> ExecutionMetrics {
    let o = Real::whole(0);
    ExecutionMetrics {
        adjusted_entry_price: o,
        permanent_impact_pct: o,
        temporary_impact_pct: o,
        total_cost_pct: o,
        fill_probability: o,
        expected_fill_usd: o,
        is_executable: false,
        rejection_reason: reason,
    }
}

/// Execution realism model.
#[derive(Debug, Clone, Copy)]
pub struct ExecutionModel {
    /// The greatest age of a signal, in milliseconds.
    pub max_signal_age_ms: u64,
    /// Spread cost in hundredths of a percent.
    pub spread_cost_bps: Real,
    /// Market impact parameters.
    pub impact: ImpactParams,
}

/// The logistic function.
pub open spec fn logistic_of(f: Oracle, x: Real) -> Real {
    Real::whole(1) / (Real::whole(1) + exp_of(f, x.neg()))
}

fn logistic<M: Fn(Elementary) -> Real>(x: Real, math: &M) -> (r: Real)
    requires
        is_function(*math),
    ensures
        r == logistic_of(oracle(*math), x),
{
    Real::whole(1) / (Real::whole(1) + exp(math, x.neg()))
}

/// Permanent impact of a size as a fraction of the daily volume.
pub open spec fn permanent_impact(p: ImpactParams, size: Real, adv: Real) -> Real {
    p.eta * (size / adv.max(Real::whole(1)))
}

/// Temporary impact of a size, with the spread in place of volatility.
pub open spec fn temporary_impact(p: ImpactParams, size: Real, adv: Real, spread: Real) -> Real {
    p.kappa * spread.max(Real::ratio(1, 10_000)) * (size / adv.max(Real::whole(1))).sqrt()
}

/// What the model needs to know of a position to be opened.
#[derive(Debug, Clone, Copy)]
pub struct Offer {
    pub generated_at_ms: u64,
    pub direction: Direction,
    pub entry_price: Real,
    pub position_size_usd: Real,
    pub leverage: Real,
    pub directional_edge: Real,
}

/// What the model needs to know of a signal.
pub open spec fn offer_of(signal: TradeSignal) -> Offer {
    Offer {
        generated_at_ms: signal.generated_at_ms,
        direction: signal.direction,
        entry_price: signal.entry_price,
        position_size_usd: signal.position_size_usd,
        leverage: signal.leverage,
        directional_edge: signal.directional_edge,
    }
}

/// The evaluation of a signal in a market.
pub open spec fn evaluation(
    f: Oracle,
    m: ExecutionModel,
    signal: TradeSignal,
    now_ms: u64,
    adv: Real,
    spread: Real,
    depth: Real,
) -> ExecutionMetrics {
    assessment(f, m, offer_of(signal), now_ms, adv, spread, depth)
}

/// The evaluation of an offer in a market.
pub open spec fn assessment(
    f: Oracle,
    m: ExecutionModel,
    signal: Offer,
    now_ms: u64,
    adv: Real,
    spread: Real,
    depth: Real,
) -> ExecutionMetrics {
    let age = if now_ms >= signal.generated_at_ms {
        (now_ms - signal.generated_at_ms) as u64
    } else {
        0u64
    };
    let size = signal.position_size_usd * signal.leverage;
    let spread_cost = spread * Real::ratio(1, 2);
    let perm = permanent_impact(m.impact, size, adv);
    let temp = temporary_impact(m.impact, size, adv, spread);
    let cost = spread_cost + perm + temp;
    let fill = logistic_of(f, depth / size.max(Real::whole(1)) - Real::whole(1));
    let adjustment = signal.entry_price * (spread_cost + perm);
    let edge = signal.directional_edge.abs();
    let executable = edge > cost && fill > Real::ratio(3, 10);
    if age > m.max_signal_age_ms {
        not_executable(
            RejectionReason::SignalStale { age_ms: age, max_ms: m.max_signal_age_ms },
        )
    } else {
        ExecutionMetrics {
            adjusted_entry_price: if signal.direction == Direction::Long {
                signal.entry_price + adjustment
            } else {
                signal.entry_price - adjustment
            },
            permanent_impact_pct: perm,
            temporary_impact_pct: temp,
            total_cost_pct: cost,
            fill_probability: fill,
            expected_fill_usd: signal.position_size_usd * fill,
            is_executable: executable,
            rejection_reason: if executable {
                RejectionReason::Executable
            } else if fill <= Real::ratio(3, 10) {
                RejectionReason::LowFillProbability { percent: fill * Real::whole(100) }
            } else {
                RejectionReason::EdgeBelowCost { edge, cost }
            },
        }
    }
}

/// A signal older than the limit is never executable, whatever the market, and all
/// its metrics are zero.
pub proof fn stale_signal_is_rejected(
    f: Oracle,
    m: ExecutionModel,
    signal: TradeSignal,
    now_ms: u64,
    adv: Real,
    spread: Real,
    depth: Real,
)
    requires
        now_ms - signal.generated_at_ms > m.max_signal_age_ms,
    ensures
        !evaluation(f, m, signal, now_ms, adv, spread, depth).is_executable,
        evaluation(
            f,
            m,
            signal,
            now_ms,
            adv,
            spread,
            depth,
        ) == not_executable(
            RejectionReason::SignalStale {
                age_ms: (now_ms - signal.generated_at_ms) as u64,
                max_ms: m.max_signal_age_ms,
            },
        ),
{
}

/// A signal is executable exactly when it is not stale, its edge exceeds the total
/// cost and its fill probability exceeds three tenths; any other has a reason for
/// rejection, and a stale one has no metrics.
pub proof fn executable_signal_is_worth_it(
    f: Oracle,
    m: ExecutionModel,
    signal: TradeSignal,
    now_ms: u64,
    adv: Real,
    spread: Real,
    depth: Real,
)
    ensures
        ({
            let r = evaluation(f, m, signal, now_ms, adv, spread, depth);
            &&& r.is_executable <==> r.rejection_reason is Executable
            &&& r.is_executable <==> now_ms - signal.generated_at_ms <= m.max_signal_age_ms
                && r.fill_probability > Real::ratio(3, 10)
                && signal.directional_edge.abs() > r.total_cost_pct
        }),
{
}

/// The fill probability lies between zero and one, as far as the exponential that
/// is supplied is never negative.
pub proof fn fill_probability_is_in_range(
    f: Oracle,
    m: ExecutionModel,
    signal: TradeSignal,
    now_ms: u64,
    adv: Real,
    spread: Real,
    depth: Real,
)
    requires
        exp_is_monotone(f),
        depth.finite(),
    ensures
        ({
            let p = evaluation(f, m, signal, now_ms, adv, spread, depth).fill_probability;
            Real::whole(0) <= p && p <= Real::whole(1)
        }),
{
    let one = Real::whole(1);
    lemma_whole(0);
    lemma_whole(1);
    lemma_whole_order(0, 1);
    let size = (signal.position_size_usd * signal.leverage).max(one);
    lemma_units_zero(size.mag());
    let q = depth / size;
    assert(!q.nan()) by {
        reveal(Real::spec_div);
        lemma_round_bound(mag_units(depth.mag()) * pow2(1074), mag_units(size.mag()));
    }
    let x = q - one;
    assert(!x.nan()) by {
        reveal(Real::spec_add);
        let s = q.value() - one.value();
        lemma_round_bound(s as nat, 1);
        lemma_round_bound((-s) as nat, 1);
    }
    let e = exp_of(f, x.neg());
    assert(Real::whole(0) <= e);
    lemma_add_not_negative(one, e);
    lemma_add_grows(one, e);
    let d = one + e;
    lemma_div_monotone(one, one, d);
    lemma_at_most_one(one, d);
}

impl ExecutionModel {
    pub fn new(max_signal_age_ms: u64, spread_cost_bps: Real, impact: ImpactParams) -> (r: Self)
        ensures
            r == (ExecutionModel { max_signal_age_ms, spread_cost_bps, impact }),
    {
        Self { max_signal_age_ms, spread_cost_bps, impact }
    }

    /// Five seconds, five hundredths of a percent, and default impact.
    pub fn default_crypto() -> (r: Self)
        ensures
            r == (ExecutionModel {
                max_signal_age_ms: 5_000,
                spread_cost_bps: Real::whole(5),
                impact: default_impact(),
            }),
    {
        Self::new(5_000, Real::whole(5), ImpactParams::default())
    }

    /// The model that the settings give, with defaults for what is missing.
    pub fn from_settings(
        max_signal_age_ms: Option<u64>,
        spread_cost_bps: Option<Real>,
        impact: ImpactParams,
    ) -> (r: Self)
        ensures
            r == (ExecutionModel {
                max_signal_age_ms: match max_signal_age_ms {
                    Some(x) => x,
                    None => 5_000,
                },
                spread_cost_bps: match spread_cost_bps {
                    Some(x) => x,
                    None => Real::whole(5),
                },
                impact,
            }),
    {
        let age: u64 = match max_signal_age_ms {
            Some(x) => x,
            None => 5_000,
        };
        let spread = match spread_cost_bps {
            Some(x) => x,
            None => Real::whole(5),
        };
        Self::new(age, spread, impact)
    }

    /// Evaluates a signal: `adv_24h_usd` is the daily volume, `bid_ask_spread_pct`
    /// the spread as a fraction of the mid price, and `book_depth_usd` the depth
    /// near it.
    pub fn evaluate<M: Fn(Elementary) -> Real>(
        &self,
        signal: &TradeSignal,
        now_ms: u64,
        adv_24h_usd: Real,
        bid_ask_spread_pct: Real,
        book_depth_usd: Real,
        math: &M,
    ) -> (r: ExecutionMetrics)
        requires
            is_function(*math),
        ensures
            r == evaluation(
                oracle(*math),
                *self,
                *signal,
                now_ms,
                adv_24h_usd,
                bid_ask_spread_pct,
                book_depth_usd,
            ),
    {
        let offer = Offer {
            generated_at_ms: signal.generated_at_ms,
            direction: signal.direction,
            entry_price: signal.entry_price,
            position_size_usd: signal.position_size_usd,
            leverage: signal.leverage,
            directional_edge: signal.directional_edge,
        };
        self.assess(&offer, now_ms, adv_24h_usd, bid_ask_spread_pct, book_depth_usd, math)
    }

    /// Evaluates an offer, as `evaluate` does a signal.
    pub fn assess<M: Fn(Elementary) -> Real>(
        &self,
        signal: &Offer,
        now_ms: u64,
        adv_24h_usd: Real,
        bid_ask_spread_pct: Real,
        book_depth_usd: Real,
        math: &M,
    ) -> (r: ExecutionMetrics)
        requires
            is_function(*math),
        ensures
            r == assessment(
                oracle(*math),
                *self,
                *signal,
                now_ms,
                adv_24h_usd,
                bid_ask_spread_pct,
                book_depth_usd,
            ),
    {
        let signal_age: u64 = now_ms.saturating_sub(signal.generated_at_ms);
        if signal_age > self.max_signal_age_ms {
            let o = Real::whole(0);
            return ExecutionMetrics {
                adjusted_entry_price: o,
                permanent_impact_pct: o,
                temporary_impact_pct: o,
                total_cost_pct: o,
                fill_probability: o,
                expected_fill_usd: o,
                is_executable: false,
                rejection_reason: RejectionReason::SignalStale {
                    age_ms: signal_age,
                    max_ms: self.max_signal_age_ms,
                },
            };
        }
        let price = signal.entry_price;
        let size_usd = signal.position_size_usd * signal.leverage;
        let spread_cost = bid_ask_spread_pct * Real::ratio(1, 2);
        let adv = adv_24h_usd.max(Real::whole(1));
        let size_fraction = size_usd / adv;
        let perm_impact = self.impact.eta * size_fraction;
        let sigma_proxy = bid_ask_spread_pct.max(Real::ratio(1, 10_000));
        let temp_impact = self.impact.kappa * sigma_proxy * size_fraction.sqrt();
        let total_cost = spread_cost + perm_impact + temp_impact;
        let depth_ratio = book_depth_usd / size_usd.max(Real::whole(1));
        let fill_prob = logistic(depth_ratio - Real::whole(1), math);
        let expected_fill = signal.position_size_usd * fill_prob;
        let price_adjustment = price * (spread_cost + perm_impact);
        let adjusted_entry = if signal.direction.is_long() {
            price + price_adjustment
        } else {
            price - price_adjustment
        };
        let edge = signal.directional_edge.abs();
        let is_executable = edge > total_cost && fill_prob > Real::ratio(3, 10);
        let rejection_reason = if is_executable {
            RejectionReason::Executable
        } else if fill_prob <= Real::ratio(3, 10) {
            RejectionReason::LowFillProbability { percent: fill_prob * Real::whole(100) }
        } else {
            RejectionReason::EdgeBelowCost { edge, cost: total_cost }
        };
        ExecutionMetrics {
            adjusted_entry_price: adjusted_entry,
            permanent_impact_pct: perm_impact,
            temporary_impact_pct: temp_impact,
            total_cost_pct: total_cost,
            fill_probability: fill_prob,
            expected_fill_usd: expected_fill,
            is_executable,
            rejection_reason,
        }
    }
}

} // verus!
