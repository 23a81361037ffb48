//! Bayesian combination of signals.
//!
//! Each source is weighted by the softmax of a moving average of its log
//! evidence, with a floor that keeps the models diverse. The fused distribution
//! is the mixture; its variance counts the disagreement of the models.
use vstd::prelude::*;

use crate::ensemble::distribution::{
    entropy_confidence, unit, EnsembleDistribution, SignalOutput,
};
use crate::estimation::posterior::{normal_cdf_of, standard_normal_cdf, StatePosterior};
use crate::features::frequency::{scores_of, FrequencyFeatures};
use crate::num::constants::{minus_infinity, tiny30};
use crate::num::drift::lemma_unit_difference;
use crate::num::elementary::{exp, exp_of, is_function, ln, ln_of, oracle, Elementary, Oracle};
use crate::num::order::{
    clamp_unit, lemma_neg_order, lemma_ratio_order, lemma_share, lemma_symmetric, lemma_whole,
    lemma_whole_order,
};
use crate::num::series::{sum, sum_of_seq, tally, total};
use crate::num::Real;
use crate::orderbook::hawkes::HawkesProcess;

verus! {

/// Bayesian fusion of signal sources.
#[derive(Debug)]
pub struct BayesianFusion {
    /// Names of the sources, in the order of registration.
    pub sources: Vec<&'static str>,
    /// Moving average of the log evidence per source.
    pub log_evidence_ema: Vec<Real>,
    /// Weight of the past in the moving average.
    pub evidence_decay: Real,
    /// Least weight of a source.
    pub min_weight: Real,
}

/// The largest log evidence among the first `n` sources that are active.
pub open spec fn largest_active(ema: Seq<Real>, active: Seq<bool>, n: nat) -> Real
    decreases n,
{
    if n == 0 {
        minus_infinity()
    } else {
        let before = largest_active(ema, active, (n - 1) as nat);
        if active[n - 1] {
            before.max(ema[n - 1])
        } else {
            before
        }
    }
}

/// How many of the first `n` sources are active.
pub open spec fn active_among(active: Seq<bool>, n: nat) -> nat
    decreases n,
{
    if n == 0 {
        0
    } else {
        active_among(active, (n - 1) as nat) + if active[n - 1] {
            1nat
        } else {
            0nat
        }
    }
}

/// The exponentials of the log evidence relative to the largest.
pub open spec fn evidence_ratios(f: Oracle, ema: Seq<Real>, active: Seq<bool>) -> Seq<Real> {
    let top = largest_active(ema, active, active.len());
    Seq::new(
        active.len(),
        |i: int|
            if active[i] {
                exp_of(f, ema[i] - top)
            } else {
                Real::whole(0)
            },
    )
}

/// The weights of the sources: a floor for each active one, and the rest by
/// softmax; equal where the floors leave nothing. An inactive source has none.
pub open spec fn weights_of(
    f: Oracle,
    ema: Seq<Real>,
    active: Seq<bool>,
    floor: Real,
) -> Seq<Real> {
    let ratios = evidence_ratios(f, ema, active);
    let all = sum_of_seq(ratios).max(tiny30());
    let n_active = Real::count(active_among(active, active.len()) as usize);
    let floors = floor * n_active;
    Seq::new(
        active.len(),
        |i: int|
            if !active[i] {
                Real::whole(0)
            } else if floors >= Real::whole(1) {
                Real::whole(1) / n_active
            } else {
                floor + (Real::whole(1) - floors) * (ratios[i] / all)
            },
    )
}

/// A quantity of a signal that is averaged over the mixture.
pub enum Moment {
    Up,
    Down,
    Mean,
    Confidence,
    /// Second moment about a centre.
    Spread(Real),
}

/// The value of a quantity for a signal.
pub open spec fn moment_of(f: Oracle, s: SignalOutput, m: Moment) -> Real {
    match m {
        Moment::Up => s.p_up,
        Moment::Down => s.p_down,
        Moment::Mean => s.predictive_mean,
        Moment::Confidence => entropy_confidence(f, s.p_up, s.p_down, s.p_flat()),
        Moment::Spread(mu) => s.predictive_std * s.predictive_std + (s.predictive_mean - mu) * (
        s.predictive_mean - mu),
    }
}

/// The weighted values of a quantity over the present ones of the first `n`
/// signals.
pub open spec fn weighted(
    f: Oracle,
    signals: Seq<Option<SignalOutput>>,
    weights: Seq<Real>,
    m: Moment,
    n: nat,
) -> Seq<Real>
    decreases n,
{
    if n == 0 {
        Seq::empty()
    } else {
        let before = weighted(f, signals, weights, m, (n - 1) as nat);
        match signals[n - 1] {
            Some(s) => before.push(weights[n - 1] * moment_of(f, s, m)),
            None => before,
        }
    }
}

/// How many sources are fused.
pub open spec fn fused_count(ema: Seq<Real>, signals: Seq<Option<SignalOutput>>) -> nat {
    if ema.len() <= signals.len() {
        ema.len()
    } else {
        signals.len()
    }
}

/// Which of the first `n` signals are present.
pub open spec fn presence(signals: Seq<Option<SignalOutput>>, n: nat) -> Seq<bool> {
    Seq::new(n, |i: int| signals[i] is Some)
}

/// The moving averages after the signals' evidence.
pub open spec fn ema_after(
    ema: Seq<Real>,
    signals: Seq<Option<SignalOutput>>,
    decay: Real,
) -> Seq<Real> {
    Seq::new(
        ema.len(),
        |i: int|
            if i < signals.len() && signals[i] is Some {
                decay * ema[i] + (Real::whole(1) - decay)
                    * signals[i]->0.log_evidence.clamp(Real::whole(50).neg(), Real::whole(0))
            } else {
                ema[i]
            },
    )
}

/// The mixture of the present signals.
pub struct Mixture {
    pub p_up: Real,
    pub p_down: Real,
    pub mean: Real,
    pub std: Real,
    pub confidence: Real,
    pub weights: Seq<Real>,
}

/// The mixture of the present signals under the weights that the moving averages
/// give.
pub open spec fn mixture(
    f: Oracle,
    ema: Seq<Real>,
    floor: Real,
    signals: Seq<Option<SignalOutput>>,
) -> Mixture {
    let n = fused_count(ema, signals);
    let w = weights_of(f, ema, presence(signals, n), floor);
    let mu = tally(weighted(f, signals, w, Moment::Mean, n));
    let spread = sum_of_seq(weighted(f, signals, w, Moment::Spread(mu), n));
    Mixture {
        p_up: unit(tally(weighted(f, signals, w, Moment::Up, n))),
        p_down: unit(tally(weighted(f, signals, w, Moment::Down, n))),
        mean: mu,
        std: spread.sqrt().max(Real::ratio(1, 10_000_000_000)),
        confidence: unit(tally(weighted(f, signals, w, Moment::Confidence, n))),
        weights: w,
    }
}

/// The distribution is the mixture, with its weights named by the sources.
pub open spec fn is_mixture(
    d: EnsembleDistribution,
    m: Mixture,
    sources: Seq<&'static str>,
) -> bool {
    &&& d.p_up == m.p_up
    &&& d.p_down == m.p_down
    &&& d.predictive_mean == m.mean
    &&& d.predictive_std == m.std
    &&& d.confidence == m.confidence
    &&& d.weights@.len() == m.weights.len()
    &&& forall|i: int|
        0 <= i < m.weights.len() ==> (#[trigger] d.weights@[i]).1 == m.weights[i]
            && d.weights@[i].0@ == if i < sources.len() {
            sources[i]@
        } else {
            "unknown"@
        }
}

/// A source without a signal has no weight, and does not change its moving
/// average.
pub proof fn missing_source_has_no_weight(
    f: Oracle,
    ema: Seq<Real>,
    floor: Real,
    decay: Real,
    signals: Seq<Option<SignalOutput>>,
    i: int,
)
    requires
        0 <= i < fused_count(ema, signals),
        signals[i] is None,
    ensures
        weights_of(f, ema, presence(signals, fused_count(ema, signals)), floor)[i] == Real::whole(0),
        ema_after(ema, signals, decay)[i] == ema[i],
{
}

/// Two present sources with the same evidence have the same weight.
pub proof fn equal_evidence_has_equal_weight(
    f: Oracle,
    ema: Seq<Real>,
    floor: Real,
    active: Seq<bool>,
    i: int,
    j: int,
)
    requires
        active.len() <= ema.len(),
        0 <= i < active.len(),
        0 <= j < active.len(),
        active[i] && active[j],
        ema[i] == ema[j],
    ensures
        weights_of(f, ema, active, floor)[i] == weights_of(f, ema, active, floor)[j],
{
}

/// The fused probabilities and the confidence lie between zero and one as far
/// as they are numbers, the edge between minus one and one, and the standard
/// deviation is positive.
pub proof fn mixture_is_in_range(
    f: Oracle,
    ema: Seq<Real>,
    floor: Real,
    signals: Seq<Option<SignalOutput>>,
)
    ensures
        ({
            let m = mixture(f, ema, floor, signals);
            &&& m.p_up.nan() || (Real::whole(0) <= m.p_up && m.p_up <= Real::whole(1))
            &&& m.p_down.nan() || (Real::whole(0) <= m.p_down && m.p_down <= Real::whole(1))
            &&& m.confidence.nan() || (Real::whole(0) <= m.confidence && m.confidence
                <= Real::whole(1))
            &&& m.p_up.nan() || m.p_down.nan() || (Real::whole(1).neg() <= m.p_up - m.p_down
                && m.p_up - m.p_down <= Real::whole(1))
            &&& m.std >= Real::ratio(1, 10_000_000_000)
        }),
{
    let m = mixture(f, ema, floor, signals);
    lemma_whole_order(0, 1);
    lemma_ratio_order(1, 10_000_000_000, 1, 10_000_000_000);
    if !m.p_up.nan() && !m.p_down.nan() {
        lemma_unit_difference(m.p_up, m.p_down);
    }
}

fn softmax_weights<M: Fn(Elementary) -> Real>(
    ema: &Vec<Real>,
    active: &Vec<bool>,
    floor: Real,
    math: &M,
) -> (r: Vec<Real>)
    requires
        is_function(*math),
        active@.len() <= ema@.len(),
    ensures
        r@ == weights_of(oracle(*math), ema@, active@, floor),
{
    let n: usize = active.len();
    let ghost f = oracle(*math);
    let mut max_le = minus_infinity();
    let mut n_active: usize = 0;
    let mut i: usize = 0;
    while i < n
        invariant
            i <= n,
            n == active@.len(),
            n <= ema@.len(),
            n_active <= i,
            max_le == largest_active(ema@, active@, i as nat),
            n_active == active_among(active@, i as nat),
        decreases n - i,
    {
        if active[i] {
            max_le = max_le.max(ema[i]);
            n_active += 1;
        }
        i += 1;
    }
    let ghost ratios = evidence_ratios(f, ema@, active@);
    let mut exp_vals: Vec<Real> = Vec::new();
    let mut j: usize = 0;
    while j < n
        invariant
            is_function(*math),
            f == oracle(*math),
            j <= n,
            n == active@.len(),
            n <= ema@.len(),
            max_le == largest_active(ema@, active@, active@.len()),
            ratios == evidence_ratios(f, ema@, active@),
            exp_vals@ =~= ratios.take(j as int),
        decreases n - j,
    {
        let e = if active[j] {
            exp(math, ema[j] - max_le)
        } else {
            Real::whole(0)
        };
        exp_vals.push(e);
        j += 1;
    }
    assert(exp_vals@ =~= ratios);
    let sum_exp = sum(exp_vals.as_slice()).max(tiny30());
    let n_active = Real::count(n_active);
    let floor_total = floor * n_active;
    let uniform = floor_total >= Real::whole(1);
    let remaining = Real::whole(1) - floor_total;
    let ghost goal = weights_of(f, ema@, active@, floor);
    let mut out: Vec<Real> = Vec::new();
    let mut k: usize = 0;
    while k < n
        invariant
            k <= n,
            n == active@.len(),
            exp_vals@ == ratios,
            exp_vals@.len() == n,
            ratios == evidence_ratios(f, ema@, active@),
            sum_exp == sum_of_seq(ratios).max(tiny30()),
            n_active == Real::count(active_among(active@, active@.len()) as usize),
            floor_total == floor * n_active,
            uniform == (floor_total >= Real::whole(1)),
            remaining == Real::whole(1) - floor_total,
            goal == weights_of(f, ema@, active@, floor),
            out@ =~= goal.take(k as int),
        decreases n - k,
    {
        let w = if !active[k] {
            Real::whole(0)
        } else if uniform {
            Real::whole(1) / n_active
        } else {
            floor + remaining * (exp_vals[k] / sum_exp)
        };
        out.push(w);
        k += 1;
    }
    assert(out@ =~= goal);
    out
}

impl BayesianFusion {
    /// A fusion of `n_sources` sources without evidence. The floor is at most an
    /// equal share.
    pub fn new(n_sources: usize, evidence_decay: Real, min_weight: Real) -> (r: Self)
        ensures
            r.sources@.len() == 0,
            r.log_evidence_ema@ == Seq::new(n_sources as nat, |i: int| Real::whole(0)),
            r.evidence_decay == evidence_decay,
            r.min_weight == min_weight.clamp(
                Real::whole(0),
                Real::whole(1) / Real::count(n_sources),
            ),
    {
        let mut ema: Vec<Real> = Vec::new();
        let mut i: usize = 0;
        while i < n_sources
            invariant
                i <= n_sources,
                ema@ =~= Seq::new(i as nat, |i: int| Real::whole(0)),
            decreases n_sources - i,
        {
            ema.push(Real::whole(0));
            i += 1;
        }
        proof {
            lemma_share(n_sources);
        }
        Self {
            sources: Vec::new(),
            log_evidence_ema: ema,
            evidence_decay,
            min_weight: min_weight.clamp(Real::whole(0), Real::whole(1) / Real::count(n_sources)),
        }
    }

    /// Three sources, slow forgetting, and a floor of five percent.
    pub fn default_three_source() -> (r: Self)
        ensures
            r.sources@.len() == 0,
            r.log_evidence_ema@ == Seq::new(3, |i: int| Real::whole(0)),
            r.evidence_decay == Real::ratio(99, 100),
            r.min_weight == Real::ratio(5, 100).clamp(
                Real::whole(0),
                Real::whole(1) / Real::count(3),
            ),
    {
        Self::new(3, Real::ratio(99, 100), Real::ratio(5, 100))
    }

    /// Names the next source, as long as there are unnamed ones.
    pub fn register_source(&mut self, name: &'static str)
        ensures
            final(self).sources@ == if old(self).sources@.len() < old(
                self,
            ).log_evidence_ema@.len() {
                old(self).sources@.push(name)
            } else {
                old(self).sources@
            },
            final(self).log_evidence_ema == old(self).log_evidence_ema,
            final(self).evidence_decay == old(self).evidence_decay,
            final(self).min_weight == old(self).min_weight,
    {
        if self.sources.len() < self.log_evidence_ema.len() {
            self.sources.push(name);
        }
    }

    /// Takes the evidence of the signals, one per source in the order of
    /// registration, and fuses those that are present. There is no result
    /// without a signal.
    pub fn fuse<M: Fn(Elementary) -> Real>(
        &mut self,
        signals: &[Option<SignalOutput>],
        math: &M,
    ) -> (r: Option<EnsembleDistribution>)
        requires
            is_function(*math),
        ensures
            final(self).log_evidence_ema@ == ema_after(
                old(self).log_evidence_ema@,
                signals@,
                old(self).evidence_decay,
            ),
            final(self).sources == old(self).sources,
            final(self).evidence_decay == old(self).evidence_decay,
            final(self).min_weight == old(self).min_weight,
            r is Some <==> exists|i: int|
                0 <= i < fused_count(old(self).log_evidence_ema@, signals@)
                    && #[trigger] signals@[i] is Some,
            r matches Some(d) ==> is_mixture(
                d,
                mixture(
                    oracle(*math),
                    final(self).log_evidence_ema@,
                    old(self).min_weight,
                    signals@,
                ),
                old(self).sources@,
            ),
    {
        let ghost before = self.log_evidence_ema@;
        let ghost after = ema_after(before, signals@, self.evidence_decay);
        let ghost f = oracle(*math);
        let n: usize = if self.log_evidence_ema.len() <= signals.len() {
            self.log_evidence_ema.len()
        } else {
            signals.len()
        };
        proof {
            lemma_whole_order(0, 50);
            lemma_neg_order(Real::whole(0), Real::whole(50));
            lemma_whole(0);
        }
        let mut active: Vec<bool> = Vec::new();
        let mut any = false;
        let mut i: usize = 0;
        while i < n
            invariant
                i <= n,
                n == fused_count(before, signals@),
                self.log_evidence_ema@.len() == before.len(),
                after == ema_after(before, signals@, self.evidence_decay),
                forall|j: int| 0 <= j < i ==> self.log_evidence_ema@[j] == after[j],
                forall|j: int| i <= j < before.len() ==> self.log_evidence_ema@[j] == before[j],
                active@ =~= presence(signals@, i as nat),
                any <==> exists|j: int| 0 <= j < i && #[trigger] signals@[j] is Some,
                self.sources == old(self).sources,
                self.evidence_decay == old(self).evidence_decay,
                self.min_weight == old(self).min_weight,
                Real::whole(50).neg() <= Real::whole(0),
            decreases n - i,
        {
            if let Some(sig) = signals[i] {
                let le = sig.log_evidence.clamp(Real::whole(50).neg(), Real::whole(0));
                let e = self.evidence_decay * self.log_evidence_ema[i] + (Real::whole(1)
                    - self.evidence_decay) * le;
                self.log_evidence_ema.set(i, e);
                active.push(true);
                any = true;
                assert(signals@[i as int] is Some);
            } else {
                active.push(false);
            }
            i += 1;
        }
        assert(self.log_evidence_ema@ =~= after);
        if !any {
            return None;
        }
        let weights = softmax_weights(&self.log_evidence_ema, &active, self.min_weight, math);
        let ghost w = weights@;
        let mut ups: Vec<Real> = Vec::new();
        let mut downs: Vec<Real> = Vec::new();
        let mut means: Vec<Real> = Vec::new();
        let mut confs: Vec<Real> = Vec::new();
        let mut j: usize = 0;
        while j < n
            invariant
                is_function(*math),
                f == oracle(*math),
                j <= n,
                n <= signals@.len(),
                w == weights@,
                w.len() == n,
                ups@ == weighted(f, signals@, w, Moment::Up, j as nat),
                downs@ == weighted(f, signals@, w, Moment::Down, j as nat),
                means@ == weighted(f, signals@, w, Moment::Mean, j as nat),
                confs@ == weighted(f, signals@, w, Moment::Confidence, j as nat),
            decreases n - j,
        {
            if let Some(sig) = signals[j] {
                ups.push(weights[j] * sig.p_up);
                downs.push(weights[j] * sig.p_down);
                means.push(weights[j] * sig.predictive_mean);
                confs.push(weights[j] * sig.confidence(math));
            }
            j += 1;
        }
        let p_up = total(ups.as_slice());
        let p_down = total(downs.as_slice());
        let mu_mix = total(means.as_slice());
        let conf_mix = total(confs.as_slice());
        let mut spreads: Vec<Real> = Vec::new();
        let mut named: Vec<(&'static str, Real)> = Vec::new();
        let mut k: usize = 0;
        while k < n
            invariant
                k <= n,
                n <= signals@.len(),
                w == weights@,
                w.len() == n,
                spreads@ == weighted(f, signals@, w, Moment::Spread(mu_mix), k as nat),
                named@.len() == k,
                forall|i: int|
                    0 <= i < k ==> (#[trigger] named@[i]).1 == w[i] && named@[i].0@ == if i
                        < self.sources@.len() {
                        self.sources@[i]@
                    } else {
                        "unknown"@
                    },
            decreases n - k,
        {
            if let Some(s) = signals[k] {
                let var = s.predictive_std * s.predictive_std;
                let bias = s.predictive_mean - mu_mix;
                spreads.push(weights[k] * (var + bias * bias));
            }
            let name = if k < self.sources.len() {
                self.sources[k]
            } else {
                "unknown"
            };
            named.push((name, weights[k]));
            k += 1;
        }
        let sigma2_mix = sum(spreads.as_slice());
        Some(
            EnsembleDistribution {
                p_up: clamp_unit(p_up),
                p_down: clamp_unit(p_down),
                predictive_mean: mu_mix,
                predictive_std: sigma2_mix.sqrt().max(Real::ratio(1, 10_000_000_000)),
                confidence: clamp_unit(conf_mix),
                weights: named,
            },
        )
    }
}

/// A probability kept away from certainty.
pub open spec fn uncertain(p: Real) -> Real {
    p.clamp(Real::ratio(1, 100), Real::ratio(99, 100))
}

fn clamp_uncertain(p: Real) -> (r: Real)
    ensures
        r == uncertain(p),
{
    proof {
        lemma_ratio_order(1, 100, 99, 100);
    }
    p.clamp(Real::ratio(1, 100), Real::ratio(99, 100))
}

/// A log evidence between minus twenty and zero.
pub open spec fn modest(x: Real) -> Real {
    x.clamp(Real::whole(20).neg(), Real::whole(0))
}

fn clamp_modest(x: Real) -> (r: Real)
    ensures
        r == modest(x),
{
    proof {
        lemma_whole_order(0, 20);
        lemma_neg_order(Real::whole(0), Real::whole(20));
        lemma_whole(0);
    }
    x.clamp(Real::whole(20).neg(), Real::whole(0))
}

/// The signal of a filter's posterior.
pub open spec fn kalman_output(f: Oracle, posterior: StatePosterior) -> SignalOutput {
    let mu = posterior.predictive_mean();
    let ret = posterior.expected_return();
    let sigma = posterior.predictive_std();
    SignalOutput {
        source: "dual_kalman",
        p_up: unit(normal_cdf_of(f, ret / sigma)),
        p_down: unit(normal_cdf_of(f, ret.neg() / sigma)),
        predictive_mean: mu,
        predictive_std: sigma,
        log_evidence: posterior.log_predictive,
    }
}

/// The signal of a filter's posterior.
pub fn kalman_signal<M: Fn(Elementary) -> Real>(posterior: &StatePosterior, math: &M) -> (r:
    SignalOutput)
    requires
        is_function(*math),
    ensures
        r == kalman_output(oracle(*math), *posterior),
{
    let mu = posterior.predictive_mean();
    let ret = posterior.expected_return();
    let sigma = posterior.predictive_std();
    let p_up = standard_normal_cdf(ret / sigma, math);
    let p_down = standard_normal_cdf(ret.neg() / sigma, math);
    SignalOutput {
        source: "dual_kalman",
        p_up: clamp_unit(p_up),
        p_down: clamp_unit(p_down),
        predictive_mean: mu,
        predictive_std: sigma,
        log_evidence: posterior.log_predictive,
    }
}

/// The signal of frequency features: long periods with low entropy lean towards
/// the trend, noise widens the distribution, and entropy lowers the evidence.
pub open spec fn frequency_output(
    f: Oracle,
    entropy: Real,
    ratio: Real,
    velocity: Real,
) -> SignalOutput {
    let (trend, noise) = scores_of(entropy, ratio);
    let bias = trend * velocity.signum() * trend.sqrt();
    let std = (Real::ratio(5, 1000) + noise * Real::ratio(2, 100)).max(
        Real::ratio(1, 10_000_000_000),
    );
    SignalOutput {
        source: "frequency",
        p_up: uncertain(normal_cdf_of(f, bias / std)),
        p_down: uncertain(normal_cdf_of(f, bias.neg() / std)),
        predictive_mean: bias * std,
        predictive_std: std,
        log_evidence: modest(
            ln_of(f, entropy.max(Real::ratio(1, 100_000))).neg() * (Real::whole(1) - entropy)
                - Real::whole(1),
        ),
    }
}

/// The signal of frequency features, in the direction of the velocity.
pub fn frequency_signal<M: Fn(Elementary) -> Real>(
    freq: &FrequencyFeatures,
    current_velocity: Real,
    math: &M,
) -> (r: SignalOutput)
    requires
        is_function(*math),
    ensures
        r == frequency_output(
            oracle(*math),
            freq.spectral_entropy,
            freq.noise_trend_ratio,
            current_velocity,
        ),
{
    let (trend_score, noise_score) = freq.regime_scores();
    let directional_bias = trend_score * current_velocity.signum() * trend_score.sqrt();
    let implied_std = (Real::ratio(5, 1000) + noise_score * Real::ratio(2, 100)).max(
        Real::ratio(1, 10_000_000_000),
    );
    let p_up = clamp_uncertain(standard_normal_cdf(directional_bias / implied_std, math));
    let p_down = clamp_uncertain(standard_normal_cdf(directional_bias.neg() / implied_std, math));
    let conf_weight = Real::whole(1) - freq.spectral_entropy;
    let log_evidence = ln(math, freq.spectral_entropy.max(Real::ratio(1, 100_000))).neg()
        * conf_weight - Real::whole(1);
    SignalOutput {
        source: "frequency",
        p_up,
        p_down,
        predictive_mean: directional_bias * implied_std,
        predictive_std: implied_std,
        log_evidence: clamp_modest(log_evidence),
    }
}

/// The order flow imbalance of a process within its bounds.
pub open spec fn bounded_ofi(hawkes: HawkesProcess) -> Real {
    hawkes.intensity_ofi().clamp(Real::whole(1).neg(), Real::whole(1))
}

/// How much cross-excitation fattens the tails.
pub open spec fn tail_penalty_of(hawkes: HawkesProcess) -> Real {
    (hawkes.cross_excitation_ratio().clamp(Real::whole(0), Real::whole(5)) / Real::whole(5)).min(
        Real::ratio(1, 2),
    )
}

/// The signal of order arrivals: the imbalance of the background rates gives the
/// direction, and cross-excitation widens the distribution.
pub open spec fn orderbook_output(f: Oracle, hawkes: HawkesProcess) -> SignalOutput {
    let ofi = bounded_ofi(hawkes);
    let penalty = tail_penalty_of(hawkes);
    let std = (Real::ratio(3, 1000) + penalty * Real::ratio(15, 1000)).max(
        Real::ratio(1, 10_000_000_000),
    );
    let half = Real::ratio(1, 2);
    SignalOutput {
        source: "orderbook",
        p_up: uncertain(normal_cdf_of(f, ofi / std * half)),
        p_down: uncertain(normal_cdf_of(f, ofi.neg() / std * half)),
        predictive_mean: ofi * std,
        predictive_std: std,
        log_evidence: modest(half.neg() * (Real::whole(1) - ofi.abs()) - penalty),
    }
}

/// The signal of order arrivals.
pub fn orderbook_signal<M: Fn(Elementary) -> Real>(hawkes: &HawkesProcess, math: &M) -> (r:
    SignalOutput)
    requires
        is_function(*math),
    ensures
        r == orderbook_output(oracle(*math), *hawkes),
{
    proof {
        lemma_whole_order(0, 1);
        lemma_whole_order(0, 5);
        lemma_symmetric(Real::whole(1));
    }
    let ofi = hawkes.intensity_ofi().clamp(Real::whole(1).neg(), Real::whole(1));
    let cross_ratio = hawkes.cross_excitation_ratio().clamp(Real::whole(0), Real::whole(5));
    let half = Real::ratio(1, 2);
    let tail_penalty = (cross_ratio / Real::whole(5)).min(half);
    let implied_std = (Real::ratio(3, 1000) + tail_penalty * Real::ratio(15, 1000)).max(
        Real::ratio(1, 10_000_000_000),
    );
    let p_up = clamp_uncertain(standard_normal_cdf(ofi / implied_std * half, math));
    let p_down = clamp_uncertain(standard_normal_cdf(ofi.neg() / implied_std * half, math));
    let log_evidence = half.neg() * (Real::whole(1) - ofi.abs()) - tail_penalty;
    SignalOutput {
        source: "orderbook",
        p_up,
        p_down,
        predictive_mean: ofi * implied_std,
        predictive_std: implied_std,
        log_evidence: clamp_modest(log_evidence),
    }
}

} // verus!
