//! Outputs of single signal sources and of their fusion.
use vstd::prelude::*;

use crate::num::elementary::{is_function, ln, ln_of, oracle, Elementary, Oracle};
use crate::num::order::clamp_unit;
use crate::num::Real;

verus! {

/// Output of one probabilistic signal source.
#[derive(Debug, Clone, Copy)]
pub struct SignalOutput {
    /// Identifier of the source.
    pub source: &'static str,
    /// Probability of a positive next return.
    pub p_up: Real,
    /// Probability of a negative next return.
    pub p_down: Real,
    /// Mean of the predictive distribution.
    pub predictive_mean: Real,
    /// Standard deviation of the predictive distribution.
    pub predictive_std: Real,
    /// Log marginal likelihood of the latest observation under this model.
    pub log_evidence: Real,
}

/// The number moved into the unit interval.
pub open spec fn unit(x: Real) -> Real {
    x.clamp(Real::whole(0), Real::whole(1))
}

/// A probability of at least `1e-10`, whose logarithm is finite.
pub open spec fn off_zero(x: Real) -> Real {
    x.max(Real::ratio(1, 10_000_000_000))
}

/// One minus the entropy of three probabilities over its maximum.
pub open spec fn entropy_confidence(f: Oracle, pu: Real, pd: Real, pf: Real) -> Real {
    let u = off_zero(pu);
    let d = off_zero(pd);
    let z = off_zero(pf);
    let h = (u * ln_of(f, u) + d * ln_of(f, d) + z * ln_of(f, z)).neg();
    unit(Real::whole(1) - h / ln_of(f, Real::whole(3)))
}

impl SignalOutput {
    /// Probability of a return near zero.
    pub open spec fn spec_p_flat(&self) -> Real {
        unit(Real::whole(1) - self.p_up - self.p_down)
    }

    /// Probability of a return near zero.
    #[verifier::when_used_as_spec(spec_p_flat)]
    pub fn p_flat(&self) -> (r: Real)
        ensures
            r == self.spec_p_flat(),
    {
        clamp_unit(Real::whole(1) - self.p_up - self.p_down)
    }

    /// Directional edge: positive is bullish, negative bearish.
    pub fn directional_edge(&self) -> (r: Real)
        ensures
            r == self.p_up - self.p_down,
    {
        self.p_up - self.p_down
    }

    /// Confidence: one minus the entropy over its maximum.
    pub fn confidence<M: Fn(Elementary) -> Real>(&self, math: &M) -> (r: Real)
        requires
            is_function(*math),
        ensures
            r == entropy_confidence(oracle(*math), self.p_up, self.p_down, self.p_flat()),
    {
        let pu = self.p_up.max(Real::ratio(1, 10_000_000_000));
        let pd = self.p_down.max(Real::ratio(1, 10_000_000_000));
        let pf = self.p_flat().max(Real::ratio(1, 10_000_000_000));
        let h = (pu * ln(math, pu) + pd * ln(math, pd) + pf * ln(math, pf)).neg();
        let h_max = ln(math, Real::whole(3));
        clamp_unit(Real::whole(1) - h / h_max)
    }
}

/// Fused distribution: the primary output of the estimation layer.
#[derive(Debug, Clone)]
pub struct EnsembleDistribution {
    /// Averaged probability of an up move.
    pub p_up: Real,
    /// Averaged probability of a down move.
    pub p_down: Real,
    /// Mean of the mixture.
    pub predictive_mean: Real,
    /// Standard deviation of the mixture, within and between the models.
    pub predictive_std: Real,
    /// Weighted average of the signals' confidence.
    pub confidence: Real,
    /// Weight of each source.
    pub weights: Vec<(&'static str, Real)>,
}

impl EnsembleDistribution {
    pub open spec fn spec_directional_edge(&self) -> Real {
        self.p_up - self.p_down
    }

    /// Directional edge: the probability of up less that of down.
    #[verifier::when_used_as_spec(spec_directional_edge)]
    pub fn directional_edge(&self) -> (r: Real)
        ensures
            r == self.spec_directional_edge(),
    {
        self.p_up - self.p_down
    }

    pub open spec fn spec_is_confident(&self) -> bool {
        self.confidence > Real::ratio(55, 100)
    }

    /// The ensemble is confident enough to trade.
    #[verifier::when_used_as_spec(spec_is_confident)]
    pub fn is_confident(&self) -> (r: bool)
        ensures
            r == self.spec_is_confident(),
    {
        self.confidence > Real::ratio(55, 100)
    }

    pub open spec fn spec_predictive_variance(&self) -> Real {
        self.predictive_std * self.predictive_std
    }

    /// Variance of the mixture.
    #[verifier::when_used_as_spec(spec_predictive_variance)]
    pub fn predictive_variance(&self) -> (r: Real)
        ensures
            r == self.spec_predictive_variance(),
    {
        self.predictive_std * self.predictive_std
    }

    /// What the distribution looks like.
    pub open spec fn regime(&self) -> Seq<char> {
        let edge = self.directional_edge().abs();
        if self.predictive_std > Real::ratio(2, 100) {
            "high_vol"@
        } else if edge > Real::ratio(3, 10) {
            "trending"@
        } else if edge < Real::ratio(1, 10) {
            "consolidating"@
        } else {
            "mixed"@
        }
    }

    /// What the distribution looks like.
    pub fn regime_description(&self) -> (r: &'static str)
        ensures
            r@ == self.regime(),
    {
        let edge = self.directional_edge().abs();
        if self.predictive_std > Real::ratio(2, 100) {
            "high_vol"
        } else if edge > Real::ratio(3, 10) {
            "trending"
        } else if edge < Real::ratio(1, 10) {
            "consolidating"
        } else {
            "mixed"
        }
    }
}

/// A probabilistic signal source.
pub trait ProbabilisticSignal {
    /// The latest output, or nothing where there is too little data.
    fn signal(&self) -> Option<SignalOutput>;

    /// Name of the source.
    fn source_name(&self) -> &'static str;
}

} // verus!
