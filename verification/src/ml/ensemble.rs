//! Two models per asset: a classifier of the direction and a regressor of the
//! volatility over the next hours.
use vstd::prelude::*;

use crate::data::table::Table;
use crate::features::assembler::{row_vectors, FeatureRow, N_FEATURES};
use crate::ml::gradient_boost::{all_fit, boosted, indicator, GbClassifier, GbRegressor};
use crate::ml::tree::{rectangular, samples, width};
use crate::num::elementary::{is_function, ln, ln_of, oracle, Elementary, Oracle};
use crate::num::series::{mean, mean_of, squared_deviations, sum_of_seq, sum_squared_deviations};
use crate::num::Real;

verus! {

/// What the models say of an asset.
#[derive(Debug)]
pub struct EnsembleOutput {
    pub asset: String,
    pub p_up: Real,
    pub p_flat: Real,
    pub p_down: Real,
    /// Probability of up less that of down.
    pub directional_edge: Real,
    /// Confidence from the entropy of the probabilities.
    pub signal_confidence: Real,
    /// Predicted volatility over four hours.
    pub predicted_vol_4h: Real,
}

impl EnsembleOutput {
    /// A long trade is worth considering.
    pub open spec fn leans_long(&self) -> bool {
        self.directional_edge > Real::ratio(1, 4) && self.signal_confidence > Real::ratio(60, 100)
    }

    /// A short trade is worth considering.
    pub open spec fn leans_short(&self) -> bool {
        self.directional_edge < Real::ratio(1, 4).neg() && self.signal_confidence
            > Real::ratio(60, 100)
    }

    /// How attractive a trade is, for ranking.
    pub open spec fn attraction(&self) -> Real {
        self.directional_edge.abs() * self.signal_confidence / self.predicted_vol_4h.max(
            Real::ratio(1, 1000),
        )
    }

    /// A long trade is worth considering.
    pub fn is_long_signal(&self) -> (r: bool)
        ensures
            r == self.leans_long(),
    {
        self.directional_edge > Real::ratio(1, 4) && self.signal_confidence > Real::ratio(60, 100)
    }

    /// A short trade is worth considering.
    pub fn is_short_signal(&self) -> (r: bool)
        ensures
            r == self.leans_short(),
    {
        self.directional_edge < Real::ratio(1, 4).neg() && self.signal_confidence
            > Real::ratio(60, 100)
    }

    /// How attractive a trade is, for ranking.
    pub fn score(&self) -> (r: Real)
        ensures
            r == self.attraction(),
    {
        self.directional_edge.abs() * self.signal_confidence / self.predicted_vol_4h.max(
            Real::ratio(1, 1000),
        )
    }
}

/// Why models cannot be trained.
#[derive(Debug, Clone, Copy, PartialEq, Eq, Structural)]
pub enum TrainError {
    /// There are too few rows.
    TooFewRows { needed: usize, have: usize },
}

/// The models of all assets.
#[derive(Debug)]
pub struct ModelEnsemble {
    pub classifiers: Table<GbClassifier>,
    pub regressors: Table<GbRegressor>,
    pub n_estimators: usize,
    pub learning_rate: Real,
    pub max_depth: usize,
}

/// The class of row `i`: the sign of the log return of the level over the
/// horizon, zero within 0.3 percent or without a level.
pub open spec fn label_of(f: Oracle, rows: Seq<FeatureRow>, horizon: int, i: int) -> i8 {
    let cur = rows[i].kalman_level;
    let ret = ln_of(f, rows[i + horizon].kalman_level / cur);
    if cur < Real::ratio(1, 10_000_000_000) {
        0
    } else if ret > Real::ratio(3, 1000) {
        1
    } else if ret < Real::ratio(3, 1000).neg() {
        -1i8
    } else {
        0
    }
}

/// The classes of the first `n` rows.
pub open spec fn labels_of(f: Oracle, rows: Seq<FeatureRow>, horizon: int, n: nat) -> Seq<i8> {
    Seq::new(n, |i: int| label_of(f, rows, horizon, i))
}

/// The sizes of the velocities of `horizon` rows from `i` on.
pub open spec fn speeds(rows: Seq<FeatureRow>, i: int, horizon: nat) -> Seq<Real> {
    Seq::new(horizon, |j: int| rows[i + j].kalman_velocity.abs())
}

/// The volatility ahead of row `i`: the standard deviation of the speeds, scaled
/// to the horizon.
pub open spec fn vol_of(rows: Seq<FeatureRow>, horizon: nat, i: int) -> Real {
    let v = speeds(rows, i, horizon);
    let n = Real::count(horizon as usize);
    if horizon == 0 {
        Real::ratio(1, 100)
    } else {
        ((sum_of_seq(squared_deviations(v, sum_of_seq(v) / n)) / n).sqrt() * n.sqrt()).max(
            Real::ratio(1, 1000),
        )
    }
}

/// The volatilities ahead of the first `n` rows.
pub open spec fn vols_of(rows: Seq<FeatureRow>, horizon: nat, n: nat) -> Seq<Real> {
    Seq::new(n, |i: int| vol_of(rows, horizon, i))
}

/// The samples of the first `n` rows.
pub open spec fn row_samples(rows: Seq<FeatureRow>, n: nat) -> Seq<Seq<Real>> {
    Seq::new(n, |i: int| rows[i].vector())
}

/// The regressor was fitted to targets from scratch.
pub open spec fn trained_on(
    r: GbRegressor,
    xs: Seq<Seq<Real>>,
    ys: Seq<Real>,
    n_estimators: usize,
    learning_rate: Real,
    max_depth: usize,
) -> bool {
    &&& r.trees@ == boosted(xs, ys, learning_rate, max_depth as nat, n_estimators as nat).trees
    &&& r.base_pred == mean_of(ys)
    &&& r.learning_rate == learning_rate
}

fn make_labels<M: Fn(Elementary) -> Real>(
    rows: &Vec<FeatureRow>,
    horizon: usize,
    n: usize,
    math: &M,
) -> (r: Vec<i8>)
    requires
        is_function(*math),
        n + horizon <= rows@.len(),
    ensures
        r@ == labels_of(oracle(*math), rows@, horizon as int, n as nat),
{
    let ghost goal = labels_of(oracle(*math), rows@, horizon as int, n as nat);
    let mut out: Vec<i8> = Vec::new();
    let mut i: usize = 0;
    let len: usize = rows.len();
    while i < n
        invariant
            is_function(*math),
            i <= n,
            len == rows@.len(),
            n + horizon <= len,
            goal == labels_of(oracle(*math), rows@, horizon as int, n as nat),
            out@ =~= goal.take(i as int),
        decreases n - i,
    {
        let fwd = rows[i + horizon].kalman_level;
        let cur = rows[i].kalman_level;
        let label: i8 = if cur < Real::ratio(1, 10_000_000_000) {
            0
        } else {
            let ret = ln(math, fwd / cur);
            if ret > Real::ratio(3, 1000) {
                1
            } else if ret < Real::ratio(3, 1000).neg() {
                -1
            } else {
                0
            }
        };
        out.push(label);
        i += 1;
    }
    assert(out@ =~= goal);
    out
}

fn volatility_ahead(rows: &Vec<FeatureRow>, horizon: usize, i: usize) -> (r: Real)
    requires
        i + horizon <= rows@.len(),
    ensures
        r == vol_of(rows@, horizon as nat, i as int),
{
    if horizon == 0 {
        return Real::ratio(1, 100);
    }
    let len: usize = rows.len();
    let mut v: Vec<Real> = Vec::new();
    let mut j: usize = 0;
    while j < horizon
        invariant
            j <= horizon,
            len == rows@.len(),
            i + horizon <= len,
            v@ =~= speeds(rows@, i as int, horizon as nat).take(j as int),
        decreases horizon - j,
    {
        v.push(rows[i + j].kalman_velocity.abs());
        j += 1;
    }
    assert(v@ =~= speeds(rows@, i as int, horizon as nat));
    let n = Real::count(horizon);
    let mu = mean(v.as_slice());
    let std = (sum_squared_deviations(v.as_slice(), mu) / n).sqrt();
    (std * n.sqrt()).max(Real::ratio(1, 1000))
}

fn make_vols(rows: &Vec<FeatureRow>, horizon: usize, n: usize) -> (r: Vec<Real>)
    requires
        n + horizon <= rows@.len(),
    ensures
        r@ == vols_of(rows@, horizon as nat, n as nat),
{
    let ghost goal = vols_of(rows@, horizon as nat, n as nat);
    let mut out: Vec<Real> = Vec::new();
    let mut i: usize = 0;
    while i < n
        invariant
            i <= n,
            n + horizon <= rows@.len(),
            goal == vols_of(rows@, horizon as nat, n as nat),
            out@ =~= goal.take(i as int),
        decreases n - i,
    {
        out.push(volatility_ahead(rows, horizon, i));
        i += 1;
    }
    assert(out@ =~= goal);
    out
}

/// The confidence of three probabilities: one minus their entropy over its
/// maximum, at least zero.
pub open spec fn class_confidence(f: Oracle, p: (Real, Real, Real)) -> Real {
    let eps = Real::ratio(1, 10_000_000_000);
    let entropy = (p.0 * ln_of(f, p.0 + eps) + p.1 * ln_of(f, p.1 + eps) + p.2 * ln_of(
        f,
        p.2 + eps,
    )).neg();
    (Real::whole(1) - entropy / ln_of(f, Real::whole(3))).max(Real::whole(0))
}

impl ModelEnsemble {
    /// No models yet.
    pub fn new(n_estimators: usize, learning_rate: Real, max_depth: usize) -> (r: Self)
        ensures
            r.classifiers@ == Map::<Seq<char>, GbClassifier>::empty(),
            r.regressors@ == Map::<Seq<char>, GbRegressor>::empty(),
            r.n_estimators == n_estimators,
            r.learning_rate == learning_rate,
            r.max_depth == max_depth,
            r.wf(),
    {
        Self {
            classifiers: Table::new(),
            regressors: Table::new(),
            n_estimators,
            learning_rate,
            max_depth,
        }
    }

    /// All models take the features of a row.
    pub open spec fn wf(&self) -> bool {
        &&& forall|a: Seq<char>|
            self.classifiers@.contains_key(a) ==> (#[trigger] self.classifiers@[a]).fits(
                N_FEATURES as nat,
            )
        &&& forall|a: Seq<char>|
            self.regressors@.contains_key(a) ==> all_fit(
                (#[trigger] self.regressors@[a]).trees@,
                N_FEATURES as nat,
            )
    }

    /// Trains both models of an asset on rows in chronological order. `horizon` is
    /// the number of rows ahead that the targets look; the last `horizon` rows
    /// serve for targets only.
    pub fn train<M: Fn(Elementary) -> Real>(
        &mut self,
        asset: &str,
        rows: &Vec<FeatureRow>,
        horizon: usize,
        math: &M,
    ) -> (r: Result<(), TrainError>)
        requires
            is_function(*math),
            horizon + 10 <= usize::MAX,
        ensures
            rows@.len() < horizon + 10 ==> r == Err::<(), TrainError>(
                TrainError::TooFewRows {
                    needed: (horizon + 10) as usize,
                    have: rows@.len() as usize,
                },
            ) && *final(self) == *old(self),
            rows@.len() >= horizon + 10 ==> {
                let n = (rows@.len() - horizon) as nat;
                let xs = row_samples(rows@, n);
                let labels = labels_of(oracle(*math), rows@, horizon as int, n);
                let c = final(self).classifiers@[asset@];
                let (e, lr, d) = (
                    old(self).n_estimators,
                    old(self).learning_rate,
                    old(self).max_depth,
                );
                &&& r is Ok
                &&& final(self).classifiers@.dom() == old(self).classifiers@.dom().insert(asset@)
                &&& final(self).regressors@.dom() == old(self).regressors@.dom().insert(asset@)
                &&& trained_on(c.up, xs, indicator(labels, 1), e, lr, d)
                &&& trained_on(c.flat, xs, indicator(labels, 0), e, lr, d)
                &&& trained_on(c.down, xs, indicator(labels, -1i8), e, lr, d)
                &&& trained_on(
                    final(self).regressors@[asset@],
                    xs,
                    vols_of(rows@, horizon as nat, n),
                    e,
                    lr,
                    d,
                )
            },
            forall|a: Seq<char>|
                a != asset@ ==> #[trigger] final(self).classifiers@[a] == old(
                    self,
                ).classifiers@[a],
            forall|a: Seq<char>|
                a != asset@ ==> #[trigger] final(self).regressors@[a] == old(self).regressors@[a],
            final(self).n_estimators == old(self).n_estimators,
            final(self).learning_rate == old(self).learning_rate,
            final(self).max_depth == old(self).max_depth,
            old(self).wf() ==> final(self).wf(),
    {
        let len: usize = rows.len();
        if len < horizon + 10 {
            return Err(TrainError::TooFewRows { needed: horizon + 10, have: len });
        }
        let n_train: usize = len - horizon;
        let features = row_vectors(rows, n_train);
        let labels = make_labels(rows, horizon, n_train, math);
        let vol_targets = make_vols(rows, horizon, n_train);
        let ghost xs = row_samples(rows@, n_train as nat);
        proof {
            assert(samples(features@) =~= xs);
            assert(rectangular(xs, N_FEATURES as nat));
            assert(width(xs) == N_FEATURES) by {
                assert(xs[0].len() == N_FEATURES);
            }
        }
        let mut classifier = GbClassifier::new(
            self.n_estimators,
            self.learning_rate,
            self.max_depth,
        );
        let ghost c0 = classifier;
        classifier.boost(&features, &labels);
        proof {
            assert(c0.up.trees@ + boosted(
                xs,
                indicator(labels@, 1),
                self.learning_rate,
                self.max_depth as nat,
                self.n_estimators as nat,
            ).trees =~= classifier.up.trees@);
            assert(classifier.up.trees@ =~= boosted(
                xs,
                indicator(labels@, 1),
                self.learning_rate,
                self.max_depth as nat,
                self.n_estimators as nat,
            ).trees);
            assert(classifier.flat.trees@ =~= boosted(
                xs,
                indicator(labels@, 0),
                self.learning_rate,
                self.max_depth as nat,
                self.n_estimators as nat,
            ).trees);
            assert(classifier.down.trees@ =~= boosted(
                xs,
                indicator(labels@, -1i8),
                self.learning_rate,
                self.max_depth as nat,
                self.n_estimators as nat,
            ).trees);
        }
        self.classifiers.insert(asset, classifier);
        let mut regressor = GbRegressor::new(
            self.n_estimators,
            self.learning_rate,
            self.max_depth,
        );
        regressor.boost(&features, &vol_targets);
        proof {
            assert(regressor.trees@ =~= boosted(
                xs,
                vol_targets@,
                self.learning_rate,
                self.max_depth as nat,
                self.n_estimators as nat,
            ).trees);
        }
        self.regressors.insert(asset, regressor);
        Ok(())
    }

    /// Both models of an asset are trained.
    pub open spec fn trained(&self, asset: Seq<char>) -> bool {
        &&& self.classifiers@.contains_key(asset)
        &&& self.classifiers@[asset].trained()
        &&& self.regressors@.contains_key(asset)
        &&& self.regressors@[asset].trees@.len() > 0
    }

    /// What the models say of a row, once both are trained.
    pub fn predict<M: Fn(Elementary) -> Real>(
        &self,
        asset: &str,
        row: &FeatureRow,
        math: &M,
    ) -> (r: Option<EnsembleOutput>)
        requires
            self.wf(),
            is_function(*math),
        ensures
            r is Some <==> self.trained(asset@),
            r matches Some(o) ==> {
                let f = oracle(*math);
                let p = self.classifiers@[asset@].proba_at(f, row.vector());
                &&& o.asset@ == asset@
                &&& (o.p_up, o.p_flat, o.p_down) == p
                &&& o.directional_edge == p.0 - p.2
                &&& o.signal_confidence == class_confidence(f, p)
                &&& o.predicted_vol_4h == self.regressors@[asset@].value_at(row.vector()).max(
                    Real::ratio(1, 1000),
                )
            },
    {
        let clf = self.classifiers.get(asset)?;
        let reg = self.regressors.get(asset)?;
        if !clf.is_trained() || !reg.is_trained() {
            return None;
        }
        let fv = row.to_feature_vec();
        let (p_up, p_flat, p_down) = clf.predict_proba(fv.as_slice(), math);
        let predicted_vol_4h = reg.predict(fv.as_slice()).max(Real::ratio(1, 1000));
        let directional_edge = p_up - p_down;
        let eps = Real::ratio(1, 10_000_000_000);
        let entropy = (p_up * ln(math, p_up + eps) + p_flat * ln(math, p_flat + eps) + p_down * ln(
            math,
            p_down + eps,
        )).neg();
        let max_entropy = ln(math, Real::whole(3));
        let signal_confidence = (Real::whole(1) - entropy / max_entropy).max(Real::whole(0));
        Some(
            EnsembleOutput {
                asset: asset.to_owned(),
                p_up,
                p_flat,
                p_down,
                directional_edge,
                signal_confidence,
                predicted_vol_4h,
            },
        )
    }

    pub fn is_trained(&self, asset: &str) -> (r: bool)
        ensures
            r == self.trained(asset@),
    {
        let c = match self.classifiers.get(asset) {
            Some(c) => c.is_trained(),
            None => false,
        };
        let g = match self.regressors.get(asset) {
            Some(g) => g.is_trained(),
            None => false,
        };
        c && g
    }
}

} // verus!
