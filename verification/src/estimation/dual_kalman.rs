//! Dual Kalman filter: joint online estimation of latent state and model
//! parameters.
//!
//! The inner filter tracks level and velocity of a mean-reverting price under
//! the current parameters; the outer filter tracks drift, speed of mean
//! reversion and log volatility as random walks, observing the inner filter's
//! innovation through a finite-difference Jacobian.
use vstd::arithmetic::power2::pow2;
use vstd::prelude::*;

use crate::error::TradingError;
use crate::estimation::posterior::{Observation, StateEstimator, StatePosterior};
use crate::num::constants::{pi, tiny30};
use crate::num::drift::lemma_at_most_one;
use crate::num::elementary::{
    exp, exp_is_monotone, exp_of, is_function, ln, ln_of, oracle, Elementary, Oracle,
};
use crate::num::linear::{Mat2, Mat3, Vec2, Vec3};
use crate::num::model::mag_units;
use crate::num::order::{
    lemma_div_monotone, lemma_neg_order, lemma_ratio_order, lemma_round_bound, lemma_symmetric,
    lemma_whole, lemma_whole_below_ratio, lemma_whole_order,
};
use crate::num::rules::lemma_between;
use crate::num::Real;

verus! {

/// The dual Kalman filter.
#[derive(Debug, Clone, Copy)]
pub struct DualKalmanFilter {
    /// Level and velocity.
    pub x_state: Vec2,
    /// Their covariance.
    pub p_state: Mat2,
    /// Drift, speed of mean reversion and log volatility.
    pub x_param: Vec3,
    /// Their covariance.
    pub p_param: Mat3,
    /// Variances of the parameters' random walks.
    pub q_param: Mat3,
    /// Standard deviation of the observation noise.
    pub sigma_obs: Real,
    /// Long-run mean, the target of the mean reversion.
    pub rolling_mean: Real,
    /// Weight of a new price in the long-run mean.
    pub mean_alpha: Real,
    /// Log density of the latest observation.
    pub log_predictive: Real,
    /// An observation has been seen.
    pub initialized: bool,
}

/// The drift within its bounds.
pub open spec fn bounded_drift(x: Real) -> Real {
    x.clamp(Real::ratio(1, 100).neg(), Real::ratio(1, 100))
}

/// The speed of mean reversion within the bounds that predictions use.
pub open spec fn bounded_kappa(x: Real) -> Real {
    x.clamp(Real::whole(0), Real::ratio(98, 100))
}

/// The log volatility within its bounds.
pub open spec fn bounded_log_vol(x: Real) -> Real {
    x.clamp(Real::whole(12).neg(), Real::whole(1).neg())
}

fn clamp_drift(x: Real) -> (r: Real)
    ensures
        r == bounded_drift(x),
        !x.nan() ==> Real::ratio(1, 100).neg() <= r && r <= Real::ratio(1, 100),
{
    proof {
        lemma_whole_below_ratio(0, 1, 100);
        lemma_symmetric(Real::ratio(1, 100));
    }
    x.clamp(Real::ratio(1, 100).neg(), Real::ratio(1, 100))
}

fn clamp_kappa(x: Real) -> (r: Real)
    ensures
        r == bounded_kappa(x),
{
    proof {
        lemma_whole_below_ratio(0, 98, 100);
    }
    x.clamp(Real::whole(0), Real::ratio(98, 100))
}

fn clamp_log_vol(x: Real) -> (r: Real)
    ensures
        r == bounded_log_vol(x),
        !x.nan() ==> Real::whole(12).neg() <= r && r <= Real::whole(1).neg(),
{
    proof {
        lemma_whole_order(1, 12);
        lemma_neg_order(Real::whole(1), Real::whole(12));
    }
    x.clamp(Real::whole(12).neg(), Real::whole(1).neg())
}

/// The parameters moved into their ranges.
pub open spec fn bounded_params(p: Vec3) -> Vec3 {
    Vec3 {
        x: bounded_drift(p.x),
        y: p.y.clamp(Real::ratio(1, 1000), Real::ratio(98, 100)),
        z: bounded_log_vol(p.z),
    }
}

/// The transition of the state for given parameters.
pub open spec fn transition_of(p: Vec3) -> Mat2 {
    Mat2::new(
        Real::whole(1) - bounded_kappa(p.y),
        Real::whole(1),
        Real::whole(0),
        Real::ratio(9, 10),
    )
}

/// What the mean reversion and the drift add to the state.
pub open spec fn control_of(p: Vec3, rolling_mean: Real) -> Vec2 {
    Vec2::new(bounded_kappa(p.y) * rolling_mean + bounded_drift(p.x), Real::whole(0))
}

/// The noise of the state for given parameters.
pub open spec fn noise_of(f: Oracle, p: Vec3) -> Mat2 {
    let s = exp_of(f, bounded_log_vol(p.z));
    let sv2 = s * s;
    Mat2::new(sv2, Real::whole(0), Real::whole(0), sv2 * Real::ratio(1, 10))
}

/// The predicted state for given parameters.
pub open spec fn predicted_mean(x: Vec2, p: Vec3, rolling_mean: Real) -> Vec2 {
    transition_of(p).apply(x).plus(control_of(p, rolling_mean))
}

/// The covariance of the predicted state for given parameters.
pub open spec fn predicted_cov(f: Oracle, cov: Mat2, p: Vec3) -> Mat2 {
    let t = transition_of(p);
    t.times(cov).times(t.transposed()).plus(noise_of(f, p))
}

/// Step of the finite differences.
pub open spec fn spec_jac_eps() -> Real {
    Real::ratio(1, 100_000)
}

#[verifier::when_used_as_spec(spec_jac_eps)]
pub fn jac_eps() -> (r: Real)
    ensures
        r == spec_jac_eps(),
{
    Real::ratio(1, 100_000)
}

/// The central difference of the predicted price along one parameter.
pub open spec fn slope(x: Vec2, hi: Vec3, lo: Vec3, rolling_mean: Real) -> Real {
    (predicted_mean(x, hi, rolling_mean).x - predicted_mean(x, lo, rolling_mean).x) / (
    Real::whole(2) * jac_eps())
}

/// How the predicted price responds to the parameters.
pub open spec fn sensitivity(x: Vec2, p: Vec3, rolling_mean: Real) -> Vec3 {
    let e = jac_eps();
    Vec3 {
        x: slope(x, Vec3 { x: p.x + e, ..p }, Vec3 { x: p.x - e, ..p }, rolling_mean),
        y: slope(x, Vec3 { y: p.y + e, ..p }, Vec3 { y: p.y - e, ..p }, rolling_mean),
        z: slope(x, Vec3 { z: p.z + e, ..p }, Vec3 { z: p.z - e, ..p }, rolling_mean),
    }
}

/// The covariance after an update with gain `k`, in Joseph's form
/// `(I - KH) P (I - KH)' + K r K'` for an observation of the level alone.
pub open spec fn joseph(k: Vec2, cov: Mat2, sigma_obs: Real) -> Mat2 {
    let ikh = Mat2::new(Real::whole(1) - k.x, Real::whole(0), k.y.neg(), Real::whole(1));
    ikh.times(cov).times(ikh.transposed()).plus(
        Mat2::new(
            k.x * k.x * sigma_obs * sigma_obs,
            k.x * k.y * sigma_obs * sigma_obs,
            k.y * k.x * sigma_obs * sigma_obs,
            k.y * k.y * sigma_obs * sigma_obs,
        ),
    )
}

/// The log density of an innovation under a normal distribution of variance `s`.
pub open spec fn log_density(f: Oracle, innovation: Real, s: Real) -> Real {
    Real::ratio(1, 2).neg() * (innovation * innovation / s + ln_of(f, s) + ln_of(
        f,
        Real::whole(2) * pi(),
    ))
}

impl DualKalmanFilter {
    /// The long-run mean after an observed price.
    pub open spec fn mean_with(self, z: Real) -> Real {
        (Real::whole(1) - self.mean_alpha) * self.rolling_mean + self.mean_alpha * z
    }

    /// The distance of an observed price from the prediction.
    pub open spec fn innovation(self, z: Real) -> Real {
        z - predicted_mean(self.x_state, self.x_param, self.mean_with(z)).x
    }

    /// The variance of the prediction.
    pub open spec fn innovation_variance(self, f: Oracle) -> Real {
        predicted_cov(f, self.p_state, self.x_param).r0.x + self.sigma_obs * self.sigma_obs
    }

    /// How much of the innovation each parameter takes.
    pub open spec fn parameter_gain(self, f: Oracle, z: Real) -> Vec3 {
        let p_cov = self.p_param.plus(self.q_param);
        let h = sensitivity(self.x_state, self.x_param, self.mean_with(z));
        let s = h.dot(p_cov.apply(h)) + self.innovation_variance(f);
        p_cov.apply(h).over(s.max(tiny30()))
    }

    /// The filter after an observed price.
    pub open spec fn updated(self, f: Oracle, z: Real) -> DualKalmanFilter {
        if !self.initialized {
            DualKalmanFilter {
                x_state: Vec2::new(z, Real::whole(0)),
                rolling_mean: z,
                initialized: true,
                ..self
            }
        } else {
            let mean = self.mean_with(z);
            let p = self.x_param;
            let p_cov = self.p_param.plus(self.q_param);
            let x_pred = predicted_mean(self.x_state, p, mean);
            let cov = predicted_cov(f, self.p_state, p);
            let innovation = self.innovation(z);
            let s = self.innovation_variance(f);
            let k = Vec2::new(cov.r0.x / s, cov.r1.x / s);
            let h = sensitivity(self.x_state, p, mean);
            let k_param = self.parameter_gain(f, z);
            DualKalmanFilter {
                x_state: x_pred.plus(k.scaled(innovation)),
                p_state: joseph(k, cov, self.sigma_obs),
                x_param: bounded_params(p.plus(k_param.scaled(innovation))),
                p_param: Mat3::diagonal(Real::whole(1), Real::whole(1), Real::whole(1)).minus(
                    Mat3::outer(k_param, h),
                ).times(p_cov),
                rolling_mean: mean,
                log_predictive: log_density(f, innovation, s),
                ..self
            }
        }
    }

    /// The posterior that the filter holds.
    pub open spec fn summary(self, f: Oracle) -> StatePosterior {
        StatePosterior {
            level: self.x_state.x,
            velocity: self.x_state.y,
            drift: bounded_drift(self.x_param.x),
            kappa: bounded_kappa(self.x_param.y),
            sigma: exp_of(f, bounded_log_vol(self.x_param.z)),
            log_predictive: self.log_predictive,
            level_variance: self.p_state.r0.x.max(Real::whole(0)),
        }
    }

    /// A filter without observations. `sigma_obs` is the standard deviation of
    /// the observation noise, `sigma_param_walk` that of each parameter's step.
    pub fn new<M: Fn(Elementary) -> Real>(
        sigma_obs: Real,
        sigma_param_walk: Real,
        math: &M,
    ) -> (r: Self)
        requires
            is_function(*math),
        ensures
            r == fresh_filter(oracle(*math), sigma_obs, sigma_param_walk),
    {
        let qp = sigma_param_walk * sigma_param_walk;
        let tenth = Real::ratio(1, 10);
        Self {
            x_state: Vec2::new(Real::whole(0), Real::whole(0)),
            p_state: Mat2::identity(),
            x_param: Vec3::new(
                Real::whole(0),
                Real::ratio(5, 100),
                ln(math, Real::ratio(1, 1000)),
            ),
            p_param: Mat3::diagonal(tenth, tenth, tenth),
            q_param: Mat3::diagonal(qp, qp, qp),
            sigma_obs,
            rolling_mean: Real::whole(0),
            mean_alpha: Real::ratio(1, 100),
            log_predictive: Real::whole(0),
            initialized: false,
        }
    }

    /// Parameters tuned for bars of five minutes.
    pub fn default_crypto<M: Fn(Elementary) -> Real>(math: &M) -> (r: Self)
        requires
            is_function(*math),
        ensures
            r == fresh_filter(oracle(*math), Real::ratio(1, 1000), Real::ratio(1, 100_000)),
    {
        Self::new(Real::ratio(1, 1000), Real::ratio(1, 100_000), math)
    }

    fn transition(p: Vec3) -> (r: Mat2)
        ensures
            r == transition_of(p),
    {
        let k = clamp_kappa(p.y);
        Mat2::new(Real::whole(1) - k, Real::whole(1), Real::whole(0), Real::ratio(9, 10))
    }

    fn predict_mean(&self, p: Vec3, rolling_mean: Real) -> (r: Vec2)
        ensures
            r == predicted_mean(self.x_state, p, rolling_mean),
    {
        let control = Vec2::new(
            clamp_kappa(p.y) * rolling_mean + clamp_drift(p.x),
            Real::whole(0),
        );
        Self::transition(p).apply(self.x_state).plus(control)
    }

    fn predict_cov<M: Fn(Elementary) -> Real>(&self, p: Vec3, math: &M) -> (r: Mat2)
        requires
            is_function(*math),
        ensures
            r == predicted_cov(oracle(*math), self.p_state, p),
    {
        let t = Self::transition(p);
        let s = exp(math, clamp_log_vol(p.z));
        let sv2 = s * s;
        let noise = Mat2::new(sv2, Real::whole(0), Real::whole(0), sv2 * Real::ratio(1, 10));
        t.times(self.p_state).times(t.transposed()).plus(noise)
    }

    fn slope_along(&self, hi: Vec3, lo: Vec3, rolling_mean: Real) -> (r: Real)
        ensures
            r == slope(self.x_state, hi, lo, rolling_mean),
    {
        (self.predict_mean(hi, rolling_mean).x - self.predict_mean(lo, rolling_mean).x) / (
        Real::whole(2) * jac_eps())
    }
}

/// The filter without observations.
pub open spec fn fresh_filter(f: Oracle, sigma_obs: Real, sigma_param_walk: Real) -> DualKalmanFilter {
    let qp = sigma_param_walk * sigma_param_walk;
    let tenth = Real::ratio(1, 10);
    DualKalmanFilter {
        x_state: Vec2::new(Real::whole(0), Real::whole(0)),
        p_state: Mat2::identity(),
        x_param: Vec3::new(Real::whole(0), Real::ratio(5, 100), ln_of(f, Real::ratio(1, 1000))),
        p_param: Mat3::diagonal(tenth, tenth, tenth),
        q_param: Mat3::diagonal(qp, qp, qp),
        sigma_obs,
        rolling_mean: Real::whole(0),
        mean_alpha: Real::ratio(1, 100),
        log_predictive: Real::whole(0),
        initialized: false,
    }
}

impl DualKalmanFilter {
    /// The parameters are in their ranges: drift within one percent, speed of mean
    /// reversion from `0.001` to `0.98`, log volatility from `-12` to `-1`.
    pub open spec fn in_range(self) -> bool {
        let p = self.x_param;
        &&& Real::ratio(1, 100).neg() <= p.x && p.x <= Real::ratio(1, 100)
        &&& Real::ratio(1, 1000) <= p.y && p.y <= Real::ratio(98, 100)
        &&& Real::whole(12).neg() <= p.z && p.z <= Real::whole(1).neg()
    }

    /// The parameters that an observed price corrects, before they are moved into
    /// their ranges.
    pub open spec fn corrected(self, f: Oracle, z: Real) -> Vec3 {
        self.x_param.plus(self.parameter_gain(f, z).scaled(self.innovation(z)))
    }

    /// An observed price corrects the parameters to numbers, or is the first one,
    /// which corrects nothing.
    pub open spec fn is_steady(self, f: Oracle, z: Real) -> bool {
        let p = self.corrected(f, z);
        self.initialized ==> !p.x.nan() && !p.y.nan() && !p.z.nan()
    }

    /// The filter after a sequence of observed prices.
    pub open spec fn run(self, f: Oracle, prices: Seq<Real>) -> DualKalmanFilter
        decreases prices.len(),
    {
        if prices.len() == 0 {
            self
        } else {
            self.run(f, prices.drop_last()).updated(f, prices.last())
        }
    }
}

/// A correction of a finite number by a finite gain and innovation is a number.
proof fn lemma_correction(p: Real, k: Real, v: Real)
    requires
        p.finite(),
        k.finite(),
        v.finite(),
    ensures
        !(p + k * v).nan(),
{
    let c = k * v;
    assert(!c.nan()) by {
        reveal(Real::spec_mul);
        lemma_round_bound(mag_units(k.mag()) * mag_units(v.mag()), pow2(1074));
    }
    reveal(Real::spec_add);
    let s = p.value() + c.value();
    lemma_round_bound(s as nat, 1);
    lemma_round_bound((-s) as nat, 1);
}

pub(crate) proof fn lemma_bounds()
    ensures
        Real::ratio(1, 100).finite(),
        Real::ratio(1, 1000).finite(),
        Real::ratio(98, 100).finite(),
        Real::ratio(1, 100).neg() <= Real::ratio(1, 100),
        Real::ratio(1, 1000) <= Real::ratio(98, 100),
        Real::whole(12).neg() <= Real::whole(1).neg(),
        Real::whole(12).finite(),
        Real::whole(1).finite(),
        Real::whole(0) <= Real::ratio(1, 1000),
        Real::whole(0) <= Real::ratio(1, 100),
{
    lemma_whole(0);
    lemma_whole(1);
    lemma_whole(12);
    lemma_whole(100);
    lemma_whole_below_ratio(0, 1, 100);
    lemma_whole_below_ratio(0, 1, 1000);
    lemma_symmetric(Real::ratio(1, 100));
    lemma_ratio_order(1, 1000, 98, 100);
    lemma_ratio_order(1, 1000, 1, 100);
    lemma_ratio_order(1, 100, 98, 100);
    lemma_whole_order(1, 12);
    lemma_neg_order(Real::whole(1), Real::whole(12));
    lemma_ratio_below_one(98, 100);
    lemma_between(Real::whole(0), Real::ratio(98, 100), Real::whole(1));
    lemma_between(Real::whole(0), Real::ratio(1, 100), Real::ratio(98, 100));
    lemma_between(Real::whole(0), Real::ratio(1, 1000), Real::ratio(98, 100));
}

pub(crate) proof fn lemma_ratio_below_one(n: i64, d: i64)
    requires
        0 < n < d < 0x20_0000_0000_0000,
    ensures
        Real::whole(0) <= Real::ratio(n, d),
        Real::ratio(n, d) <= Real::whole(1),
{
    lemma_whole(0);
    lemma_whole_order(0, n);
    lemma_whole_order(n, d);
    lemma_whole_order(0, d);
    lemma_whole(n);
    lemma_whole(d);
    lemma_at_most_one(Real::whole(n), Real::whole(d));
    lemma_div_monotone(Real::whole(n), Real::whole(n), Real::whole(d));
}

/// Whatever is observed, the parameters stay in their ranges, and only a
/// correction that is not a number takes them out.
pub proof fn parameters_stay_in_range(kf: DualKalmanFilter, f: Oracle, z: Real)
    requires
        kf.in_range(),
    ensures
        kf.updated(f, z).in_range() <==> kf.is_steady(f, z),
{
    lemma_bounds();
}

/// A finite innovation, shared out by finite gains, corrects the parameters to
/// numbers.
pub proof fn finite_gain_is_steady(kf: DualKalmanFilter, f: Oracle, z: Real)
    requires
        kf.in_range(),
        kf.innovation(z).finite(),
        kf.parameter_gain(f, z).x.finite(),
        kf.parameter_gain(f, z).y.finite(),
        kf.parameter_gain(f, z).z.finite(),
    ensures
        kf.is_steady(f, z),
{
    lemma_bounds();
    let (p, k, v) = (kf.x_param, kf.parameter_gain(f, z), kf.innovation(z));
    lemma_between(Real::ratio(1, 100).neg(), p.x, Real::ratio(1, 100));
    lemma_between(Real::ratio(1, 1000), p.y, Real::ratio(98, 100));
    lemma_between(Real::whole(12).neg(), p.z, Real::whole(1).neg());
    lemma_correction(p.x, k.x, v);
    lemma_correction(p.y, k.y, v);
    lemma_correction(p.z, k.z, v);
}

/// The parameters are in their ranges at each tick of any sequence of prices that
/// corrects them to numbers.
pub proof fn parameters_stay_in_range_at_each_tick(
    kf: DualKalmanFilter,
    f: Oracle,
    prices: Seq<Real>,
    n: nat,
)
    requires
        kf.in_range(),
        n <= prices.len(),
        forall|t: int|
            0 <= t < n ==> (#[trigger] kf.run(f, prices.take(t))).is_steady(f, prices[t]),
    ensures
        kf.run(f, prices.take(n as int)).in_range(),
    decreases n,
{
    if n > 0 {
        let m = n - 1;
        parameters_stay_in_range_at_each_tick(kf, f, prices, m as nat);
        assert(kf.run(f, prices.take(m)).is_steady(f, prices[m]));
        parameters_stay_in_range(kf.run(f, prices.take(m)), f, prices[m]);
        assert(prices.take(n as int).drop_last() =~= prices.take(m));
    } else {
        assert(prices.take(0).len() == 0);
    }
}

/// The posterior of a new filter at each tick of any sequence of prices that
/// corrects its parameters to numbers: drift, speed of mean reversion and
/// volatility are in their ranges, and the variance of the level is not negative.
/// At the first tick the level is the price, without velocity, and nothing was
/// predicted. The supplied exponential must not fall, and the supplied logarithm
/// must give the initial volatility a value in range.
pub proof fn posterior_is_in_range_at_each_tick(
    f: Oracle,
    sigma_obs: Real,
    sigma_param_walk: Real,
    prices: Seq<Real>,
    n: nat,
)
    requires
        Real::whole(12).neg() <= ln_of(f, Real::ratio(1, 1000)),
        ln_of(f, Real::ratio(1, 1000)) <= Real::whole(1).neg(),
        exp_is_monotone(f),
        0 < n <= prices.len(),
        forall|t: int|
            0 <= t < n ==> (#[trigger] fresh_filter(f, sigma_obs, sigma_param_walk).run(
                f,
                prices.take(t),
            )).is_steady(f, prices[t]),
    ensures
        ({
            let p = fresh_filter(f, sigma_obs, sigma_param_walk).run(
                f,
                prices.take(n as int),
            ).summary(f);
            &&& is_posterior_in_range(f, p)
            &&& n == 1 ==> p.level == prices[0] && p.velocity == Real::whole(0) && p.log_predictive
                == Real::whole(0)
        }),
{
    let kf = fresh_filter(f, sigma_obs, sigma_param_walk);
    new_filter_is_in_range(f, sigma_obs, sigma_param_walk);
    parameters_stay_in_range_at_each_tick(kf, f, prices, n);
    posterior_is_in_range(kf.run(f, prices.take(n as int)), f);
    if n == 1 {
        let one = prices.take(1);
        assert(one.drop_last().len() == 0);
        assert(kf.run(f, one.drop_last()) == kf);
        first_observation_sets_level(kf, f, prices[0]);
    }
}

/// A new filter has its parameters in their ranges, as far as the logarithm that
/// is supplied gives the initial volatility a value in range.
pub proof fn new_filter_is_in_range(f: Oracle, sigma_obs: Real, sigma_param_walk: Real)
    requires
        Real::whole(12).neg() <= ln_of(f, Real::ratio(1, 1000)),
        ln_of(f, Real::ratio(1, 1000)) <= Real::whole(1).neg(),
    ensures
        fresh_filter(f, sigma_obs, sigma_param_walk).in_range(),
{
    lemma_bounds();
    lemma_ratio_order(1, 1000, 5, 100);
    lemma_ratio_order(5, 100, 98, 100);
    lemma_neg_order(Real::whole(0), Real::ratio(1, 100));
    lemma_whole(0);
    assert(0 * pow2(1074) == 0);
}

/// Drift, speed of mean reversion and volatility are in their ranges, and the
/// variance of the level is not negative.
pub open spec fn is_posterior_in_range(f: Oracle, p: StatePosterior) -> bool {
    &&& Real::ratio(1, 100).neg() <= p.drift && p.drift <= Real::ratio(1, 100)
    &&& Real::ratio(1, 1000) <= p.kappa && p.kappa <= Real::ratio(98, 100)
    &&& exp_of(f, Real::whole(12).neg()) <= p.sigma
    &&& p.sigma <= exp_of(f, Real::whole(1).neg())
    &&& Real::whole(0) <= p.level_variance
}

/// The posterior of a filter in range: drift, speed of mean reversion and
/// volatility are in their ranges, and the variance of the level is not negative.
/// The exponential that is supplied must not fall.
pub proof fn posterior_is_in_range(kf: DualKalmanFilter, f: Oracle)
    requires
        kf.in_range(),
        exp_is_monotone(f),
    ensures
        is_posterior_in_range(f, kf.summary(f)),
{
    lemma_bounds();
    lemma_whole(0);
}

/// The first observation of a new filter, or after a reset, becomes the level,
/// without velocity; it predicts nothing, so that the log density stays as it was,
/// zero.
pub proof fn first_observation_sets_level(kf: DualKalmanFilter, f: Oracle, z: Real)
    requires
        !kf.initialized,
        kf.log_predictive == Real::whole(0),
    ensures
        ({
            let p = kf.updated(f, z).summary(f);
            p.level == z && p.velocity == Real::whole(0) && p.log_predictive == Real::whole(0)
        }),
{
}

impl StateEstimator for DualKalmanFilter {
    /// Takes an observed price and gives the updated posterior. This never fails.
    fn update<M: Fn(Elementary) -> Real>(&mut self, obs: &Observation, math: &M) -> (r: Result<
        StatePosterior,
        TradingError,
    >)
        ensures
            *final(self) == old(self).updated(oracle(*math), obs.price),
            r == Ok::<StatePosterior, TradingError>(final(self).summary(oracle(*math))),
    {
        let z = obs.price;
        if !self.initialized {
            self.x_state = Vec2::new(z, Real::whole(0));
            self.rolling_mean = z;
            self.initialized = true;
            return Ok(self.posterior(math));
        }
        let mean = (Real::whole(1) - self.mean_alpha) * self.rolling_mean + self.mean_alpha * z;
        let p = self.x_param;
        let p_cov = self.p_param.plus(self.q_param);
        let x_pred = self.predict_mean(p, mean);
        let cov = self.predict_cov(p, math);
        let innovation = z - x_pred.x;
        let s = cov.r0.x + self.sigma_obs * self.sigma_obs;
        let k = Vec2::new(cov.r0.x / s, cov.r1.x / s);
        let ikh = Mat2::new(Real::whole(1) - k.x, Real::whole(0), k.y.neg(), Real::whole(1));
        let so = self.sigma_obs;
        let p_state_new = ikh.times(cov).times(ikh.transposed()).plus(
            Mat2::new(k.x * k.x * so * so, k.x * k.y * so * so, k.y * k.x * so * so, k.y * k.y * so * so),
        );
        let log_pred = Real::ratio(1, 2).neg() * (innovation * innovation / s + ln(math, s) + ln(
            math,
            Real::whole(2) * pi(),
        ));
        let e = jac_eps();
        let h = Vec3::new(
            self.slope_along(
                Vec3 { x: p.x + e, y: p.y, z: p.z },
                Vec3 { x: p.x - e, y: p.y, z: p.z },
                mean,
            ),
            self.slope_along(
                Vec3 { x: p.x, y: p.y + e, z: p.z },
                Vec3 { x: p.x, y: p.y - e, z: p.z },
                mean,
            ),
            self.slope_along(
                Vec3 { x: p.x, y: p.y, z: p.z + e },
                Vec3 { x: p.x, y: p.y, z: p.z - e },
                mean,
            ),
        );
        let ph = p_cov.apply(h);
        let s_param = h.dot(ph) + s;
        let k_param = ph.over(s_param.max(tiny30()));
        let x_param_new = p.plus(k_param.scaled(innovation));
        let one = Real::whole(1);
        let p_param_new = Mat3::diagonal(one, one, one).minus(Mat3::outer(k_param, h)).times(p_cov);
        proof {
            lemma_ratio_order(1, 1000, 98, 100);
        }
        self.x_param = Vec3::new(
            clamp_drift(x_param_new.x),
            x_param_new.y.clamp(Real::ratio(1, 1000), Real::ratio(98, 100)),
            clamp_log_vol(x_param_new.z),
        );
        self.rolling_mean = mean;
        self.x_state = x_pred.plus(k.scaled(innovation));
        self.p_state = p_state_new;
        self.p_param = p_param_new;
        self.log_predictive = log_pred;
        Ok(self.posterior(math))
    }

    /// The current posterior.
    fn posterior<M: Fn(Elementary) -> Real>(&self, math: &M) -> (r: StatePosterior)
        ensures
            r == self.summary(oracle(*math)),
    {
        StatePosterior {
            level: self.x_state.x,
            velocity: self.x_state.y,
            drift: clamp_drift(self.x_param.x),
            kappa: clamp_kappa(self.x_param.y),
            sigma: exp(math, clamp_log_vol(self.x_param.z)),
            log_predictive: self.log_predictive,
            level_variance: self.p_state.r0.x.max(Real::whole(0)),
        }
    }

    /// Forgets the state; the parameters and the long-run mean stay.
    fn reset(&mut self)
        ensures
            *final(self) == (DualKalmanFilter {
                initialized: false,
                x_state: Vec2::new(Real::whole(0), Real::whole(0)),
                p_state: Mat2::identity(),
                log_predictive: Real::whole(0),
                ..*old(self)
            }),
    {
        self.initialized = false;
        self.x_state = Vec2::new(Real::whole(0), Real::whole(0));
        self.p_state = Mat2::identity();
        self.log_predictive = Real::whole(0);
    }
}

} // verus!
