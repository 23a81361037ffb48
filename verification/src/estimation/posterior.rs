//! Observations, posteriors and estimator interfaces.
use vstd::prelude::*;

use crate::error::TradingError;
use crate::num::constants::sqrt2;
use crate::num::elementary::{exp, exp_of, is_function, oracle, Elementary, Oracle};
use crate::num::Real;

verus! {

/// A single observation of price and volume.
#[derive(Debug, Clone, Copy)]
pub struct Observation {
    pub price: Real,
    pub volume: Real,
    pub timestamp_ms: u64,
}

/// Posterior distribution over the latent state.
#[derive(Debug, Clone, Copy)]
pub struct StatePosterior {
    /// Estimated price level.
    pub level: Real,
    /// Estimated trend per bar.
    pub velocity: Real,
    /// Estimated drift per bar.
    pub drift: Real,
    /// Estimated speed of mean reversion.
    pub kappa: Real,
    /// Estimated standard deviation of the state noise.
    pub sigma: Real,
    /// Log density of the latest observation one step ahead.
    pub log_predictive: Real,
    /// Variance of the level estimate.
    pub level_variance: Real,
}

/// Abramowitz and Stegun's polynomial in `t`.
pub open spec fn erf_polynomial(t: Real) -> Real {
    t * (Real::ratio(254_829_592, 1_000_000_000) + t * (Real::ratio(
        284_496_736,
        1_000_000_000,
    ).neg() + t * (Real::ratio(1_421_413_741, 1_000_000_000) + t * (Real::ratio(
        1_453_152_027,
        1_000_000_000,
    ).neg() + t * Real::ratio(1_061_405_429, 1_000_000_000)))))
}

/// Abramowitz and Stegun's approximation of the error function.
pub open spec fn erf_of(f: Oracle, x: Real) -> Real {
    let t = Real::whole(1) / (Real::whole(1) + Real::ratio(3_275_911, 10_000_000) * x.abs());
    let r = Real::whole(1) - erf_polynomial(t) * exp_of(f, x.neg() * x);
    if x >= Real::whole(0) {
        r
    } else {
        r.neg()
    }
}

/// The distribution function of the standard normal distribution.
pub open spec fn normal_cdf_of(f: Oracle, x: Real) -> Real {
    Real::ratio(1, 2) * (Real::whole(1) + erf_of(f, x / sqrt2()))
}

fn erf_approx<M: Fn(Elementary) -> Real>(x: Real, math: &M) -> (r: Real)
    requires
        is_function(*math),
    ensures
        r == erf_of(oracle(*math), x),
{
    let t = Real::whole(1) / (Real::whole(1) + Real::ratio(3_275_911, 10_000_000) * x.abs());
    let poly = t * (Real::ratio(254_829_592, 1_000_000_000) + t * (Real::ratio(
        284_496_736,
        1_000_000_000,
    ).neg() + t * (Real::ratio(1_421_413_741, 1_000_000_000) + t * (Real::ratio(
        1_453_152_027,
        1_000_000_000,
    ).neg() + t * Real::ratio(1_061_405_429, 1_000_000_000)))));
    let result = Real::whole(1) - poly * exp(math, x.neg() * x);
    if x >= Real::whole(0) {
        result
    } else {
        result.neg()
    }
}

/// The distribution function of the standard normal distribution.
pub fn standard_normal_cdf<M: Fn(Elementary) -> Real>(x: Real, math: &M) -> (r: Real)
    requires
        is_function(*math),
    ensures
        r == normal_cdf_of(oracle(*math), x),
{
    Real::ratio(1, 2) * (Real::whole(1) + erf_approx(x / sqrt2(), math))
}

impl StatePosterior {
    pub open spec fn spec_predictive_mean(&self) -> Real {
        self.level + self.velocity + self.drift
    }

    /// Mean of the prediction one step ahead.
    #[verifier::when_used_as_spec(spec_predictive_mean)]
    pub fn predictive_mean(&self) -> (r: Real)
        ensures
            r == self.spec_predictive_mean(),
    {
        self.level + self.velocity + self.drift
    }

    pub open spec fn spec_predictive_std(&self) -> Real {
        (self.level_variance + self.sigma * self.sigma).sqrt().max(Real::ratio(1, 10_000_000_000))
    }

    /// Standard deviation of the prediction one step ahead.
    #[verifier::when_used_as_spec(spec_predictive_std)]
    pub fn predictive_std(&self) -> (r: Real)
        ensures
            r == self.spec_predictive_std(),
    {
        (self.level_variance + self.sigma * self.sigma).sqrt().max(Real::ratio(1, 10_000_000_000))
    }

    /// Mean of the next return: velocity and drift.
    pub open spec fn spec_expected_return(&self) -> Real {
        self.velocity + self.drift
    }

    /// Mean of the next return: velocity and drift.
    #[verifier::when_used_as_spec(spec_expected_return)]
    pub fn expected_return(&self) -> (r: Real)
        ensures
            r == self.spec_expected_return(),
    {
        self.velocity + self.drift
    }

    /// Probability of a positive next return.
    pub open spec fn chance_up(&self, f: Oracle) -> Real {
        normal_cdf_of(f, self.expected_return() / self.predictive_std())
    }

    /// Probability of a negative next return.
    pub open spec fn chance_down(&self, f: Oracle) -> Real {
        normal_cdf_of(f, self.expected_return().neg() / self.predictive_std())
    }

    /// Probability of a positive next return.
    pub fn p_up<M: Fn(Elementary) -> Real>(&self, math: &M) -> (r: Real)
        requires
            is_function(*math),
        ensures
            r == self.chance_up(oracle(*math)),
    {
        standard_normal_cdf(self.expected_return() / self.predictive_std(), math)
    }

    /// Probability of a negative next return.
    pub fn p_down<M: Fn(Elementary) -> Real>(&self, math: &M) -> (r: Real)
        requires
            is_function(*math),
        ensures
            r == self.chance_down(oracle(*math)),
    {
        standard_normal_cdf(self.expected_return().neg() / self.predictive_std(), math)
    }
}

/// Estimated parameters of the model.
#[derive(Debug, Clone, Copy)]
pub struct EstimatedParameters {
    /// Drift per bar.
    pub drift: Real,
    /// Speed of mean reversion.
    pub kappa: Real,
    /// Standard deviation of the state noise.
    pub vol_state: Real,
    /// Standard deviation of the observation noise.
    pub vol_obs: Real,
}

/// An estimator that takes observations one at a time.
pub trait StateEstimator {
    /// Takes an observation and gives the updated posterior.
    fn update<M: Fn(Elementary) -> Real>(&mut self, obs: &Observation, math: &M) -> Result<
        StatePosterior,
        TradingError,
    >
        requires
            is_function(*math),
    ;

    /// The current posterior.
    fn posterior<M: Fn(Elementary) -> Real>(&self, math: &M) -> StatePosterior
        requires
            is_function(*math),
    ;

    /// Forgets the state, as after a gap in the data.
    fn reset(&mut self);
}

/// An estimator of slowly varying parameters.
pub trait ParameterEstimator {
    /// One step of expectation maximization on a batch of observations.
    fn em_step(&mut self, obs: &[Observation]) -> Result<(), TradingError>;

    /// The current estimates.
    fn parameters(&self) -> EstimatedParameters;
}

} // verus!
