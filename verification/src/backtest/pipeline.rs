//! The estimators of one asset, from prices to a fused distribution.
use vstd::prelude::*;

use crate::ensemble::distribution::{EnsembleDistribution, SignalOutput};
use crate::ensemble::fusion::{
    ema_after, frequency_output, frequency_signal, kalman_output, kalman_signal, mixture,
    BayesianFusion, Mixture,
};
use crate::estimation::dual_kalman::{fresh_filter, DualKalmanFilter};
use crate::estimation::posterior::{Observation, StateEstimator};
use crate::features::frequency::{
    band_shares, entropy_of, noise_ratio_of, FrequencyExtractor,
};
use crate::num::elementary::{is_function, oracle, Elementary, Oracle};
use crate::num::Real;

verus! {

/// Length of the frequency window.
pub const WINDOW: usize = 64;

/// What the estimators of one asset have learnt.
pub struct Learnt {
    pub kf: DualKalmanFilter,
    /// The last prices.
    pub history: Seq<Real>,
    /// How many of them have been seen.
    pub seen: nat,
    /// Moving averages of the two sources' log evidence.
    pub ema: Seq<Real>,
}

/// The floor of a source's weight.
pub open spec fn floor_of_two() -> Real {
    Real::ratio(5, 100).clamp(Real::whole(0), Real::whole(1) / Real::count(2))
}

/// Estimators without prices.
pub open spec fn unlearnt(f: Oracle) -> Learnt {
    Learnt {
        kf: fresh_filter(f, Real::ratio(1, 1000), Real::ratio(1, 100_000)),
        history: Seq::new(WINDOW as nat, |i: int| Real::whole(0)),
        seen: 0,
        ema: Seq::new(2, |i: int| Real::whole(0)),
    }
}

/// The window after one more price.
pub open spec fn window_after(l: Learnt, price: Real) -> Seq<Real> {
    l.history.drop_first().push(price)
}

/// How many prices have been seen after one more.
pub open spec fn seen_after(l: Learnt) -> nat {
    if l.seen < WINDOW {
        l.seen + 1
    } else {
        WINDOW as nat
    }
}

/// The signals after one more price: that of the filter, and that of the
/// frequencies once the window is full.
pub open spec fn signals_after(f: Oracle, l: Learnt, price: Real) -> Seq<Option<SignalOutput>> {
    let post = l.kf.updated(f, price).summary(f);
    let shares = band_shares(f, window_after(l, price));
    seq![
        Some(kalman_output(f, post)),
        if seen_after(l) == WINDOW {
            Some(
                frequency_output(f, entropy_of(f, shares), noise_ratio_of(shares), post.velocity),
            )
        } else {
            None
        },
    ]
}

/// What is learnt after one more price.
#[verifier::opaque]
pub open spec fn learnt_after(f: Oracle, l: Learnt, price: Real) -> Learnt {
    Learnt {
        kf: l.kf.updated(f, price),
        history: window_after(l, price),
        seen: seen_after(l),
        ema: ema_after(l.ema, signals_after(f, l, price), Real::ratio(99, 100)),
    }
}

/// The fused distribution after one more price.
#[verifier::opaque]
pub open spec fn fused_after(f: Oracle, l: Learnt, price: Real) -> Mixture {
    mixture(f, learnt_after(f, l, price).ema, floor_of_two(), signals_after(f, l, price))
}

/// The estimators of one asset.
#[derive(Debug)]
pub struct Estimators {
    kf: DualKalmanFilter,
    freq: FrequencyExtractor,
    fusion: BayesianFusion,
}

impl Estimators {
    /// The parts fit together.
    pub closed spec fn wf(&self) -> bool {
        &&& self.freq.wf()
        &&& self.freq.size() == WINDOW
        &&& self.fusion.log_evidence_ema@.len() == 2
        &&& self.fusion.evidence_decay == Real::ratio(99, 100)
        &&& self.fusion.min_weight == floor_of_two()
    }

    /// What has been learnt.
    pub closed spec fn learnt(&self) -> Learnt {
        Learnt {
            kf: self.kf,
            history: self.freq.history(),
            seen: self.freq.seen(),
            ema: self.fusion.log_evidence_ema@,
        }
    }

    /// Estimators without prices.
    pub fn new<M: Fn(Elementary) -> Real>(math: &M) -> (r: Self)
        requires
            is_function(*math),
        ensures
            r.wf(),
            r.learnt() == unlearnt(oracle(*math)),
    {
        let mut fusion = BayesianFusion::new(2, Real::ratio(99, 100), Real::ratio(5, 100));
        fusion.register_source("dual_kalman");
        fusion.register_source("frequency");
        Self {
            kf: DualKalmanFilter::default_crypto(math),
            freq: FrequencyExtractor::new(WINDOW),
            fusion,
        }
    }

    /// Takes an observation and gives the fused distribution.
    pub fn learn<M: Fn(Elementary) -> Real>(&mut self, obs: &Observation, math: &M) -> (r: Option<
        EnsembleDistribution,
    >)
        requires
            old(self).wf(),
            is_function(*math),
        ensures
            final(self).wf(),
            final(self).learnt() == learnt_after(oracle(*math), old(self).learnt(), obs.price),
            r matches Some(d) && {
                let m = fused_after(oracle(*math), old(self).learnt(), obs.price);
                &&& d.p_up == m.p_up
                &&& d.p_down == m.p_down
                &&& d.predictive_mean == m.mean
                &&& d.predictive_std == m.std
                &&& d.confidence == m.confidence
            },
    {
        let ghost before = self.learnt();
        let posterior = match self.kf.update(obs, math) {
            Ok(p) => p,
            Err(_) => {
                return None;
            },
        };
        let ks = kalman_signal(&posterior, math);
        let fs = match self.freq.update(obs.price, math) {
            Some(x) => Some(frequency_signal(&x, posterior.velocity, math)),
            None => None,
        };
        let signals = [Some(ks), fs];
        let r = self.fusion.fuse(signals.as_slice(), math);
        proof {
            reveal(learnt_after);
            reveal(fused_after);
            assert(signals@ =~= signals_after(oracle(*math), before, obs.price));
            assert(signals@[0] is Some);
        }
        r
    }
}

} // verus!
