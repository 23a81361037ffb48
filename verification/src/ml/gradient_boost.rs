//! Gradient boosted trees: a regressor, and a classifier of up, flat and down
//! made of three regressors.
use vstd::arithmetic::power2::pow2;
use vstd::prelude::*;

use crate::ml::tree::{build_tree, rectangular, samples, tree_keeps_bounds, tree_of, width, Node};
use crate::num::drift::{
    lemma_at_most_one, lemma_cancels, lemma_difference, lemma_unit_difference,
};
use crate::num::elementary::{
    exp, exp_is_monotone, exp_of, is_function, oracle, Elementary, Oracle,
};
use crate::num::magnitude::lemma_units_zero;
use crate::num::ops::lemma_order_key;
use crate::num::order::{
    lemma_add_commutes, lemma_add_grows, lemma_add_monotone, lemma_add_not_negative,
    lemma_div_monotone, lemma_whole, lemma_whole_order,
};
use crate::num::series::{mean, mean_of};
use crate::num::Real;

verus! {

/// Why a model cannot be fitted.
#[derive(Debug, Clone, Copy, PartialEq, Eq, Structural)]
pub enum FitError {
    /// Samples and targets are empty or differ in number.
    LengthMismatch,
    /// There are fewer than twenty samples.
    TooFewSamples { have: usize },
}

/// Gradient boosted regressor.
#[derive(Debug)]
pub struct GbRegressor {
    pub trees: Vec<Node>,
    pub learning_rate: Real,
    pub base_pred: Real,
    pub n_estimators: usize,
    pub max_depth: usize,
}

/// The least number of samples in a leaf.
pub const MIN_LEAF: usize = 5;

/// The targets less the predictions.
pub open spec fn residuals_of(ys: Seq<Real>, preds: Seq<Real>) -> Seq<Real> {
    Seq::new(ys.len(), |i: int| ys[i] - preds[i])
}

/// Trees and predictions of a boosting run.
pub struct Boosted {
    pub trees: Seq<Node>,
    pub preds: Seq<Real>,
}

/// Boosting after `n` trees: each is fitted to what the others leave.
pub open spec fn boosted(
    xs: Seq<Seq<Real>>,
    ys: Seq<Real>,
    learning_rate: Real,
    max_depth: nat,
    n: nat,
) -> Boosted
    decreases n,
{
    if n == 0 {
        Boosted { trees: Seq::empty(), preds: Seq::new(ys.len(), |i: int| mean_of(ys)) }
    } else {
        let b = boosted(xs, ys, learning_rate, max_depth, (n - 1) as nat);
        let tree = tree_of(xs, residuals_of(ys, b.preds), max_depth, MIN_LEAF as nat);
        Boosted {
            trees: b.trees.push(tree),
            preds: Seq::new(
                ys.len(),
                |i: int| b.preds[i] + learning_rate * tree.value_at(xs[i]),
            ),
        }
    }
}

/// The prediction of the first `n` trees on top of a base.
pub open spec fn ensemble_value(
    trees: Seq<Node>,
    base: Real,
    learning_rate: Real,
    x: Seq<Real>,
    n: nat,
) -> Real
    decreases n,
{
    if n == 0 {
        base
    } else {
        ensemble_value(trees, base, learning_rate, x, (n - 1) as nat) + learning_rate * trees[n
            - 1].value_at(x)
    }
}

/// Why samples and targets cannot be fitted, if they cannot.
pub open spec fn fit_failure(n: nat, m: nat) -> Option<FitError> {
    if n == 0 || m != n {
        Some(FitError::LengthMismatch)
    } else if n < 20 {
        Some(FitError::TooFewSamples { have: n as usize })
    } else {
        None
    }
}

/// All trees ask for one of the first `n` features only.
pub open spec fn all_fit(trees: Seq<Node>, n: nat) -> bool {
    forall|i: int| 0 <= i < trees.len() ==> (#[trigger] trees[i]).fits(n)
}

impl GbRegressor {
    /// An untrained model.
    pub fn new(n_estimators: usize, learning_rate: Real, max_depth: usize) -> (r: Self)
        ensures
            r.trees@.len() == 0,
            r.learning_rate == learning_rate,
            r.base_pred == Real::whole(0),
            r.n_estimators == n_estimators,
            r.max_depth == max_depth,
    {
        Self {
            trees: Vec::new(),
            learning_rate,
            base_pred: Real::whole(0),
            n_estimators,
            max_depth,
        }
    }

    /// Fits the model to samples and targets; the trees of an earlier fit stay.
    pub fn fit(&mut self, features: &Vec<Vec<Real>>, targets: &Vec<Real>) -> (r: Result<
        (),
        FitError,
    >)
        requires
            rectangular(samples(features@), width(samples(features@))),
        ensures
            ({
                let xs = samples(features@);
                match fit_failure(features@.len(), targets@.len()) {
                    Some(e) => r == Err::<(), FitError>(e) && *final(self) == *old(self),
                    None => r is Ok && final(self).base_pred == mean_of(targets@)
                        && final(self).trees@ == old(self).trees@ + boosted(
                        xs,
                        targets@,
                        old(self).learning_rate,
                        old(self).max_depth as nat,
                        old(self).n_estimators as nat,
                    ).trees,
                }
            }),
            final(self).learning_rate == old(self).learning_rate,
            final(self).n_estimators == old(self).n_estimators,
            final(self).max_depth == old(self).max_depth,
            all_fit(old(self).trees@, width(samples(features@))) ==> all_fit(
                final(self).trees@,
                width(samples(features@)),
            ),
    {
        let n: usize = features.len();
        if n == 0 || targets.len() != n {
            return Err(FitError::LengthMismatch);
        }
        if n < 20 {
            return Err(FitError::TooFewSamples { have: n });
        }
        self.boost(features, targets);
        Ok(())
    }

    /// Adds trees for samples and as many targets, however few.
    pub(crate) fn boost(&mut self, features: &Vec<Vec<Real>>, targets: &Vec<Real>)
        requires
            rectangular(samples(features@), width(samples(features@))),
            0 < features@.len() == targets@.len(),
        ensures
            fitted_to(*final(self), *old(self), samples(features@), targets@),
            all_fit(old(self).trees@, width(samples(features@))) ==> all_fit(
                final(self).trees@,
                width(samples(features@)),
            ),
    {
        let n: usize = features.len();
        let ghost xs = samples(features@);
        let ghost ys = targets@;
        let ghost w = width(xs);
        let ghost before = self.trees@;
        let lr = self.learning_rate;
        let depth: usize = self.max_depth;
        let first: usize = features[0].len();
        assert(xs[0] == features@[0]@);
        self.base_pred = mean(targets.as_slice());
        let mut predictions: Vec<Real> = Vec::new();
        let mut i: usize = 0;
        while i < n
            invariant
                i <= n,
                n == ys.len(),
                self.base_pred == mean_of(ys),
                predictions@ =~= Seq::new(i as nat, |i: int| mean_of(ys)),
                self.trees@ == before,
                self.learning_rate == old(self).learning_rate,
                self.n_estimators == old(self).n_estimators,
                self.max_depth == old(self).max_depth,
            decreases n - i,
        {
            predictions.push(self.base_pred);
            i += 1;
        }
        let mut k: usize = 0;
        assert(predictions@ =~= boosted(xs, ys, lr, depth as nat, 0).preds);
        assert(before =~= before + Seq::empty());
        while k < self.n_estimators
            invariant
                k <= self.n_estimators,
                n == ys.len(),
                n == features@.len(),
                ys == targets@,
                xs == samples(features@),
                w == width(xs),
                w <= usize::MAX,
                rectangular(xs, w),
                predictions@ == boosted(xs, ys, lr, depth as nat, k as nat).preds,
                predictions@.len() == n,
                self.trees@ == before + boosted(xs, ys, lr, depth as nat, k as nat).trees,
                all_fit(before, w) ==> all_fit(self.trees@, w),
                self.base_pred == mean_of(ys),
                self.learning_rate == old(self).learning_rate,
                self.learning_rate == lr,
                self.n_estimators == old(self).n_estimators,
                self.max_depth == old(self).max_depth,
                self.max_depth == depth,
            decreases self.n_estimators - k,
        {
            let ghost b = boosted(xs, ys, lr, depth as nat, k as nat);
            let mut residuals: Vec<Real> = Vec::new();
            let mut i: usize = 0;
            while i < n
                invariant
                    i <= n,
                    n == ys.len(),
                    ys == targets@,
                    predictions@ == b.preds,
                    predictions@.len() == n,
                    residuals@ =~= residuals_of(ys, b.preds).take(i as int),
                decreases n - i,
            {
                residuals.push(targets[i] - predictions[i]);
                i += 1;
            }
            assert(residuals@ =~= residuals_of(ys, b.preds));
            let tree = build_tree(features, &residuals, depth, MIN_LEAF);
            proof {
                tree_keeps_bounds(xs, residuals@, depth as nat, MIN_LEAF as nat, w);
            }
            let ghost goal = boosted(xs, ys, lr, depth as nat, (k + 1) as nat);
            let mut next: Vec<Real> = Vec::new();
            let mut j: usize = 0;
            while j < n
                invariant
                    j <= n,
                    n == ys.len(),
                    n == features@.len(),
                    xs == samples(features@),
                    w == width(xs),
                    rectangular(xs, w),
                    tree.fits(w),
                    predictions@ == b.preds,
                    predictions@.len() == n,
                    goal.preds == Seq::new(
                        ys.len(),
                        |i: int| b.preds[i] + lr * tree.value_at(xs[i]),
                    ),
                    next@ =~= goal.preds.take(j as int),
                decreases n - j,
            {
                assert(xs[j as int].len() == w);
                assert(xs[j as int] == features@[j as int]@);
                next.push(predictions[j] + lr * tree.predict(features[j].as_slice()));
                j += 1;
            }
            assert(next@ =~= goal.preds);
            predictions = next;
            self.trees.push(tree);
            assert(self.trees@ =~= before + goal.trees);
            k += 1;
        }
    }

    /// The prediction for features.
    pub open spec fn value_at(&self, x: Seq<Real>) -> Real {
        ensemble_value(self.trees@, self.base_pred, self.learning_rate, x, self.trees@.len())
    }

    /// The prediction for features.
    pub fn predict(&self, features: &[Real]) -> (r: Real)
        requires
            all_fit(self.trees@, features@.len()),
        ensures
            r == self.value_at(features@),
    {
        let mut acc = self.base_pred;
        let mut i: usize = 0;
        while i < self.trees.len()
            invariant
                i <= self.trees@.len(),
                all_fit(self.trees@, features@.len()),
                acc == ensemble_value(
                    self.trees@,
                    self.base_pred,
                    self.learning_rate,
                    features@,
                    i as nat,
                ),
            decreases self.trees@.len() - i,
        {
            acc = acc + self.learning_rate * self.trees[i].predict(features);
            i += 1;
        }
        acc
    }

    pub fn is_trained(&self) -> (r: bool)
        ensures
            r == (self.trees@.len() > 0),
    {
        self.trees.len() > 0
    }
}

/// Classifier of up, flat and down.
#[derive(Debug)]
pub struct GbClassifier {
    pub up: GbRegressor,
    pub flat: GbRegressor,
    pub down: GbRegressor,
}

/// One where a label is the given class, zero elsewhere.
pub open spec fn indicator(labels: Seq<i8>, class: i8) -> Seq<Real> {
    labels.map_values(
        |l: i8|
            if l == class {
                Real::whole(1)
            } else {
                Real::whole(0)
            },
    )
}

fn one_hot(labels: &Vec<i8>, class: i8) -> (r: Vec<Real>)
    ensures
        r@ == indicator(labels@, class),
{
    let mut out: Vec<Real> = Vec::new();
    let mut i: usize = 0;
    while i < labels.len()
        invariant
            i <= labels@.len(),
            out@ =~= indicator(labels@, class).take(i as int),
        decreases labels@.len() - i,
    {
        out.push(
            if labels[i] == class {
                Real::whole(1)
            } else {
                Real::whole(0)
            },
        );
        i += 1;
    }
    assert(out@ =~= indicator(labels@, class));
    out
}

/// The shares of the exponentials of three scores.
pub open spec fn softmax_of(f: Oracle, a: Real, b: Real, c: Real) -> (Real, Real, Real) {
    let top = a.max(b).max(c);
    let (ea, eb, ec) = (exp_of(f, a - top), exp_of(f, b - top), exp_of(f, c - top));
    let s = ea + eb + ec;
    (ea / s, eb / s, ec / s)
}

/// The shares of three finite scores lie between zero and one, and the first less
/// the last between minus one and one; a higher score has no smaller share. The
/// exponential that is supplied must not fall.
pub proof fn shares_are_probabilities(f: Oracle, a: Real, b: Real, c: Real)
    requires
        a.finite(),
        b.finite(),
        c.finite(),
        exp_is_monotone(f),
    ensures
        ({
            let p = softmax_of(f, a, b, c);
            &&& Real::whole(0) <= p.0 && p.0 <= Real::whole(1)
            &&& Real::whole(0) <= p.1 && p.1 <= Real::whole(1)
            &&& Real::whole(0) <= p.2 && p.2 <= Real::whole(1)
            &&& Real::whole(1).neg() <= p.0 - p.2 && p.0 - p.2 <= Real::whole(1)
            &&& a <= b ==> p.0 <= p.1
            &&& b <= c ==> p.1 <= p.2
            &&& a <= c ==> p.0 <= p.2
            &&& c <= a ==> p.2 <= p.0
        }),
{
    let top = a.max(b).max(c);
    let (ea, eb, ec) = (exp_of(f, a - top), exp_of(f, b - top), exp_of(f, c - top));
    let (zero, one) = (Real::whole(0), Real::whole(1));
    lemma_whole_order(0, 1);
    lemma_whole(0);
    lemma_whole(1);
    lemma_difference(a, top);
    lemma_difference(b, top);
    lemma_difference(c, top);
    lemma_cancels(top);
    lemma_exp_unit(f, a - top);
    lemma_exp_unit(f, b - top);
    lemma_exp_unit(f, c - top);
    let t = ea + eb;
    let s = t + ec;
    lemma_add_not_negative(ea, eb);
    lemma_add_grows(ea, eb);
    lemma_add_commutes(ea, eb);
    lemma_add_grows(eb, ea);
    lemma_add_not_negative(t, ec);
    lemma_add_grows(t, ec);
    lemma_add_commutes(t, ec);
    lemma_add_grows(ec, t);
    assert(a == top || b == top || c == top);
    assert(one <= s);
    lemma_at_most_one(ea, s);
    lemma_at_most_one(eb, s);
    lemma_at_most_one(ec, s);
    lemma_div_monotone(ea, ea, s);
    lemma_div_monotone(eb, eb, s);
    lemma_div_monotone(ec, ec, s);
    lemma_unit_difference(ea / s, ec / s);
    lemma_share_order(f, a, b, top, s);
    lemma_share_order(f, b, c, top, s);
    lemma_share_order(f, a, c, top, s);
    lemma_share_order(f, c, a, top, s);
}

/// The exponential of what is not positive lies between zero and one.
proof fn lemma_exp_unit(f: Oracle, x: Real)
    requires
        exp_is_monotone(f),
        x <= Real::whole(0),
    ensures
        Real::whole(0) <= exp_of(f, x),
        exp_of(f, x) <= Real::whole(1),
        exp_of(f, x).finite(),
{
    lemma_whole(0);
    lemma_whole(1);
    assert(0 * pow2(1074) == 0);
    assert(exp_of(f, x) <= exp_of(f, Real::whole(0)));
    lemma_order_key(exp_of(f, x), Real::whole(1));
    lemma_units_zero(exp_of(f, x).mag());
}

proof fn lemma_share_order(f: Oracle, a: Real, b: Real, top: Real, s: Real)
    requires
        exp_is_monotone(f),
        a.finite(),
        b.finite(),
        top.finite(),
        a <= top,
        b <= top,
        Real::whole(0) < s,
    ensures
        a <= b ==> exp_of(f, a - top) / s <= exp_of(f, b - top) / s,
{
    if a <= b {
        lemma_difference(a, top);
        lemma_difference(b, top);
        lemma_exp_unit(f, a - top);
        lemma_exp_unit(f, b - top);
        lemma_add_monotone(a, b, top.neg());
        assert(exp_of(f, a - top) <= exp_of(f, b - top));
        lemma_div_monotone(exp_of(f, a - top), exp_of(f, b - top), s);
    }
}

fn softmax3<M: Fn(Elementary) -> Real>(a: Real, b: Real, c: Real, math: &M) -> (r: (
    Real,
    Real,
    Real,
))
    requires
        is_function(*math),
    ensures
        r == softmax_of(oracle(*math), a, b, c),
{
    let top = a.max(b).max(c);
    let ea = exp(math, a - top);
    let eb = exp(math, b - top);
    let ec = exp(math, c - top);
    let s = ea + eb + ec;
    (ea / s, eb / s, ec / s)
}

/// The regressor was fitted to targets on top of what it was.
pub open spec fn fitted_to(
    after: GbRegressor,
    before: GbRegressor,
    xs: Seq<Seq<Real>>,
    ys: Seq<Real>,
) -> bool {
    &&& after.base_pred == mean_of(ys)
    &&& after.trees@ == before.trees@ + boosted(
        xs,
        ys,
        before.learning_rate,
        before.max_depth as nat,
        before.n_estimators as nat,
    ).trees
    &&& after.learning_rate == before.learning_rate
    &&& after.max_depth == before.max_depth
    &&& after.n_estimators == before.n_estimators
}

impl GbClassifier {
    /// An untrained classifier.
    pub fn new(n_estimators: usize, learning_rate: Real, max_depth: usize) -> (r: Self)
        ensures
            untrained(r.up, n_estimators, learning_rate, max_depth),
            untrained(r.flat, n_estimators, learning_rate, max_depth),
            untrained(r.down, n_estimators, learning_rate, max_depth),
    {
        Self {
            up: GbRegressor::new(n_estimators, learning_rate, max_depth),
            flat: GbRegressor::new(n_estimators, learning_rate, max_depth),
            down: GbRegressor::new(n_estimators, learning_rate, max_depth),
        }
    }

    /// All trees ask for one of the first `n` features only.
    pub open spec fn fits(&self, n: nat) -> bool {
        all_fit(self.up.trees@, n) && all_fit(self.flat.trees@, n) && all_fit(self.down.trees@, n)
    }

    /// Fits one regressor per class to labels of one, zero and minus one.
    pub fn fit(&mut self, features: &Vec<Vec<Real>>, labels: &Vec<i8>) -> (r: Result<(), FitError>)
        requires
            rectangular(samples(features@), width(samples(features@))),
        ensures
            ({
                let xs = samples(features@);
                match fit_failure(features@.len(), labels@.len()) {
                    Some(e) => r == Err::<(), FitError>(e) && *final(self) == *old(self),
                    None => r is Ok && fitted_to(
                        final(self).up,
                        old(self).up,
                        xs,
                        indicator(labels@, 1),
                    ) && fitted_to(final(self).flat, old(self).flat, xs, indicator(labels@, 0))
                        && fitted_to(
                        final(self).down,
                        old(self).down,
                        xs,
                        indicator(labels@, -1i8),
                    ),
                }
            }),
            old(self).fits(width(samples(features@))) ==> final(self).fits(
                width(samples(features@)),
            ),
    {
        let n: usize = features.len();
        if n == 0 || labels.len() != n {
            return Err(FitError::LengthMismatch);
        }
        let up = one_hot(labels, 1);
        let flat = one_hot(labels, 0);
        let down = one_hot(labels, -1);
        self.up.fit(features, &up)?;
        self.flat.fit(features, &flat)?;
        self.down.fit(features, &down)?;
        Ok(())
    }

    /// Adds trees for samples and as many labels, however few.
    pub(crate) fn boost(&mut self, features: &Vec<Vec<Real>>, labels: &Vec<i8>)
        requires
            rectangular(samples(features@), width(samples(features@))),
            0 < features@.len() == labels@.len(),
        ensures
            ({
                let xs = samples(features@);
                &&& fitted_to(final(self).up, old(self).up, xs, indicator(labels@, 1))
                &&& fitted_to(final(self).flat, old(self).flat, xs, indicator(labels@, 0))
                &&& fitted_to(final(self).down, old(self).down, xs, indicator(labels@, -1i8))
            }),
            old(self).fits(width(samples(features@))) ==> final(self).fits(
                width(samples(features@)),
            ),
    {
        self.up.boost(features, &one_hot(labels, 1));
        self.flat.boost(features, &one_hot(labels, 0));
        self.down.boost(features, &one_hot(labels, -1));
    }

    /// The probabilities of up, flat and down.
    pub open spec fn proba_at(&self, f: Oracle, x: Seq<Real>) -> (Real, Real, Real) {
        softmax_of(f, self.up.value_at(x), self.flat.value_at(x), self.down.value_at(x))
    }

    /// The probabilities of up, flat and down.
    pub fn predict_proba<M: Fn(Elementary) -> Real>(&self, features: &[Real], math: &M) -> (r: (
        Real,
        Real,
        Real,
    ))
        requires
            self.fits(features@.len()),
            is_function(*math),
        ensures
            r == self.proba_at(oracle(*math), features@),
    {
        let s_up = self.up.predict(features);
        let s_flat = self.flat.predict(features);
        let s_down = self.down.predict(features);
        softmax3(s_up, s_flat, s_down, math)
    }

    /// All three regressors are trained.
    pub open spec fn trained(&self) -> bool {
        self.up.trees@.len() > 0 && self.flat.trees@.len() > 0 && self.down.trees@.len() > 0
    }

    pub fn is_trained(&self) -> (r: bool)
        ensures
            r == self.trained(),
    {
        self.up.is_trained() && self.flat.is_trained() && self.down.is_trained()
    }
}

/// The regressor has the given parameters and no trees.
pub open spec fn untrained(
    r: GbRegressor,
    n_estimators: usize,
    learning_rate: Real,
    max_depth: usize,
) -> bool {
    &&& r.trees@.len() == 0
    &&& r.learning_rate == learning_rate
    &&& r.base_pred == Real::whole(0)
    &&& r.n_estimators == n_estimators
    &&& r.max_depth == max_depth
}

} // verus!
