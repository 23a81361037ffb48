//! What the trees, the boosting and the labels mean.
use vstd::arithmetic::power2::{lemma_pow2_pos, pow2};
use vstd::prelude::*;

use crate::data::laws::ln_is_monotone;
use crate::features::assembler::FeatureRow;
use crate::ml::ensemble::{label_of, vol_of, EnsembleOutput};
use crate::ml::gradient_boost::{boosted, ensemble_value, indicator, residuals_of, GbClassifier};
use crate::ml::tree::{
    best_in_feature, best_split, better_split, dedup_of, picked, side, squared_error, thresholds,
    tree_of, width, Candidate, Node,
};
use crate::num::constants::infinity;
use crate::num::elementary::{exp_is_monotone, ln_of, Oracle};
use crate::num::ops::lemma_order_key;
use crate::num::order::{lemma_div_monotone, lemma_whole, lemma_whole_below_ratio};
use crate::num::rules::{
    is_product, is_quotient, lemma_between, lemma_operations_are_close, lemma_over_itself,
    lemma_small_ratio, lemma_sum_over, lemma_zero_value, near_ratio,
};
use crate::num::series::{mean_of, mean_or_zero};
use crate::num::Real;

verus! {

/// What the trees predicted for a sample while they were fitted is what they answer for it.
pub proof fn trees_answer_as_they_were_fitted(
    xs: Seq<Seq<Real>>,
    ys: Seq<Real>,
    rate: Real,
    depth: nat,
    n: nat,
    i: int,
)
    requires
        0 <= i < ys.len(),
    ensures
        ({
            let b = boosted(xs, ys, rate, depth, n);
            &&& b.trees.len() == n
            &&& b.preds.len() == ys.len()
            &&& b.preds[i] == ensemble_value(b.trees, mean_of(ys), rate, xs[i], n)
        }),
    decreases n,
{
    if n > 0 {
        let m = (n - 1) as nat;
        trees_answer_as_they_were_fitted(xs, ys, rate, depth, m, i);
        let (a, b) = (boosted(xs, ys, rate, depth, m), boosted(xs, ys, rate, depth, n));
        lemma_first_trees(a.trees, b.trees, mean_of(ys), rate, xs[i], m);
    }
}

proof fn lemma_first_trees(
    a: Seq<Node>,
    b: Seq<Node>,
    base: Real,
    rate: Real,
    x: Seq<Real>,
    n: nat,
)
    requires
        n <= a.len(),
        n <= b.len(),
        forall|i: int| 0 <= i < n ==> a[i] == #[trigger] b[i],
    ensures
        ensemble_value(a, base, rate, x, n) == ensemble_value(b, base, rate, x, n),
    decreases n,
{
    if n > 0 {
        lemma_first_trees(a, b, base, rate, x, (n - 1) as nat);
    }
}

/// The first tree is fitted to the distances of the targets from their mean, and each later
/// one to what the trees before it leave.
pub proof fn each_tree_is_fitted_to_the_rest(
    xs: Seq<Seq<Real>>,
    ys: Seq<Real>,
    rate: Real,
    depth: nat,
    n: nat,
    i: int,
)
    requires
        0 <= i < ys.len(),
    ensures
        ({
            let (b, c) = (
                boosted(xs, ys, rate, depth, n),
                boosted(xs, ys, rate, depth, n + 1),
            );
            &&& c.trees.drop_last() == b.trees
            &&& residuals_of(ys, b.preds)[i] == ys[i] - ensemble_value(
                b.trees,
                mean_of(ys),
                rate,
                xs[i],
                n,
            )
            &&& c.trees.last() == tree_of(
                xs,
                Seq::new(
                    ys.len(),
                    |k: int| ys[k] - ensemble_value(b.trees, mean_of(ys), rate, xs[k], n),
                ),
                depth,
                5,
            )
        }),
{
    let (b, c) = (boosted(xs, ys, rate, depth, n), boosted(xs, ys, rate, depth, n + 1));
    let rest = Seq::new(
        ys.len(),
        |k: int| ys[k] - ensemble_value(b.trees, mean_of(ys), rate, xs[k], n),
    );
    assert forall|k: int| 0 <= k < ys.len() implies rest[k] == residuals_of(ys, b.preds)[k] by {
        trees_answer_as_they_were_fitted(xs, ys, rate, depth, n, k);
    }
    assert(rest =~= residuals_of(ys, b.preds));
    assert(c.trees.drop_last() =~= b.trees);
}

/// The loss of a split: the squared errors of both sides.
pub open spec fn loss_at(
    xs: Seq<Seq<Real>>,
    ys: Seq<Real>,
    feature: int,
    threshold: Real,
) -> Real {
    squared_error(picked(ys, side(xs, feature, threshold, true, xs.len()))) + squared_error(
        picked(ys, side(xs, feature, threshold, false, xs.len())),
    )
}

/// Both sides of a split hold enough samples.
pub open spec fn leaves_enough(
    xs: Seq<Seq<Real>>,
    min_leaf: nat,
    feature: int,
    threshold: Real,
) -> bool {
    &&& side(xs, feature, threshold, true, xs.len()).len() >= min_leaf
    &&& side(xs, feature, threshold, false, xs.len()).len() >= min_leaf
}

proof fn lemma_best_in_feature(
    xs: Seq<Seq<Real>>,
    ys: Seq<Real>,
    min_leaf: nat,
    best: Candidate,
    feature: usize,
    n: nat,
)
    requires
        n <= thresholds(xs, feature as int).len(),
        !best.loss.nan(),
    ensures
        ({
            let r = best_in_feature(xs, ys, min_leaf, best, feature, n);
            &&& !r.loss.nan()
            &&& r.loss <= best.loss
            &&& r == best || (r.feature == feature && r.loss == loss_at(
                xs,
                ys,
                feature as int,
                r.threshold,
            ) && leaves_enough(xs, min_leaf, feature as int, r.threshold))
            &&& forall|k: int|
                0 <= k < n && leaves_enough(
                    xs,
                    min_leaf,
                    feature as int,
                    #[trigger] thresholds(xs, feature as int)[k],
                ) ==> !(loss_at(xs, ys, feature as int, thresholds(xs, feature as int)[k])
                    < r.loss)
        }),
    decreases n,
{
    lemma_order_key(best.loss, best.loss);
    if n > 0 {
        lemma_best_in_feature(xs, ys, min_leaf, best, feature, (n - 1) as nat);
        let a = best_in_feature(xs, ys, min_leaf, best, feature, (n - 1) as nat);
        let t = thresholds(xs, feature as int)[n - 1];
        let r = better_split(xs, ys, min_leaf, a, feature, t);
        let loss = loss_at(xs, ys, feature as int, t);
        lemma_order_key(a.loss, best.loss);
        if loss < a.loss {
            lemma_order_key(loss, a.loss);
            lemma_order_key(loss, best.loss);
        }
        assert forall|k: int|
            0 <= k < n && leaves_enough(
                xs,
                min_leaf,
                feature as int,
                #[trigger] thresholds(xs, feature as int)[k],
            ) implies !(loss_at(xs, ys, feature as int, thresholds(xs, feature as int)[k])
            < r.loss) by {
            let x = loss_at(xs, ys, feature as int, thresholds(xs, feature as int)[k]);
            if k < n - 1 && !x.nan() {
                assert(!(x < a.loss));
                lemma_order_key(x, a.loss);
                lemma_order_key(r.loss, a.loss);
                lemma_order_key(x, r.loss);
            }
        }
    }
}

/// No split of the samples at a threshold of a feature loses less than the chosen one; the
/// chosen one leaves enough samples on both sides, unless there is none at all.
pub proof fn chosen_split_loses_least(
    xs: Seq<Seq<Real>>,
    ys: Seq<Real>,
    min_leaf: nat,
    n: nat,
    feature: usize,
    k: int,
)
    requires
        n <= usize::MAX,
    ensures
        ({
            let r = best_split(xs, ys, min_leaf, n);
            &&& !r.loss.nan()
            &&& r.loss == infinity() || (r.feature < n && r.loss == loss_at(
                xs,
                ys,
                r.feature as int,
                r.threshold,
            ) && leaves_enough(xs, min_leaf, r.feature as int, r.threshold))
            &&& feature < n && 0 <= k < thresholds(xs, feature as int).len() && leaves_enough(
                xs,
                min_leaf,
                feature as int,
                thresholds(xs, feature as int)[k],
            ) ==> !(loss_at(xs, ys, feature as int, thresholds(xs, feature as int)[k]) < r.loss)
        }),
    decreases n,
{
    if n > 0 {
        let m = (n - 1) as nat;
        chosen_split_loses_least(xs, ys, min_leaf, m, feature, k);
        let a = best_split(xs, ys, min_leaf, m);
        lemma_best_in_feature(xs, ys, min_leaf, a, m as usize, thresholds(xs, m as int).len());
        let r = best_split(xs, ys, min_leaf, n);
        if feature < m && 0 <= k < thresholds(xs, feature as int).len() {
            let x = loss_at(xs, ys, feature as int, thresholds(xs, feature as int)[k]);
            if !x.nan() {
                lemma_order_key(x, a.loss);
                lemma_order_key(r.loss, a.loss);
                lemma_order_key(x, r.loss);
            }
        }
    }
}

/// Each sample is on one side of a split: on the left where its feature is at most the
/// threshold.
pub proof fn split_divides_the_samples(
    xs: Seq<Seq<Real>>,
    feature: int,
    threshold: Real,
    n: nat,
    i: int,
)
    requires
        0 <= i < n,
    ensures
        side(xs, feature, threshold, true, n).contains(i) <==> xs[i][feature] <= threshold,
        side(xs, feature, threshold, false, n).contains(i) <==> !(xs[i][feature] <= threshold),
        side(xs, feature, threshold, true, n).len() + side(xs, feature, threshold, false, n).len()
            == n,
    decreases n,
{
    let m = (n - 1) as nat;
    let (a, b) = (
        side(xs, feature, threshold, true, m),
        side(xs, feature, threshold, false, m),
    );
    let (c, d) = (
        side(xs, feature, threshold, true, n),
        side(xs, feature, threshold, false, n),
    );
    lemma_side_counts(xs, feature, threshold, m);
    if i < m {
        split_divides_the_samples(xs, feature, threshold, m, i);
        if a.contains(i) {
            let j = choose|j: int| 0 <= j < a.len() && a[j] == i;
            assert(c[j] == i);
        }
        if b.contains(i) {
            let j = choose|j: int| 0 <= j < b.len() && b[j] == i;
            assert(d[j] == i);
        }
        if c.contains(i) {
            let j = choose|j: int| 0 <= j < c.len() && c[j] == i;
            assert(j < a.len());
            assert(a[j] == i);
        }
        if d.contains(i) {
            let j = choose|j: int| 0 <= j < d.len() && d[j] == i;
            assert(j < b.len());
            assert(b[j] == i);
        }
    } else {
        if xs[i][feature] <= threshold {
            assert(c[c.len() - 1] == i);
        } else {
            assert(d[d.len() - 1] == i);
        }
    }
}

proof fn lemma_side_counts(xs: Seq<Seq<Real>>, feature: int, threshold: Real, n: nat)
    ensures
        side(xs, feature, threshold, true, n).len() + side(xs, feature, threshold, false, n).len()
            == n,
        forall|j: int|
            0 <= j < side(xs, feature, threshold, true, n).len() ==> 0 <= (#[trigger] side(
                xs,
                feature,
                threshold,
                true,
                n,
            )[j]) < n,
        forall|j: int|
            0 <= j < side(xs, feature, threshold, false, n).len() ==> 0 <= (#[trigger] side(
                xs,
                feature,
                threshold,
                false,
                n,
            )[j]) < n,
    decreases n,
{
    if n > 0 {
        lemma_side_counts(xs, feature, threshold, (n - 1) as nat);
    }
}

/// A tree without depth, or on few samples, answers with the mean of the targets.
pub proof fn stump_answers_with_the_mean(
    xs: Seq<Seq<Real>>,
    ys: Seq<Real>,
    depth: nat,
    min_leaf: nat,
    x: Seq<Real>,
)
    requires
        depth == 0 || xs.len() <= min_leaf,
    ensures
        tree_of(xs, ys, depth, min_leaf).value_at(x) == mean_or_zero(ys),
{
}

/// A tree with a split answers for a sample like the tree on the samples of its side.
pub proof fn split_answers_like_its_side(
    xs: Seq<Seq<Real>>,
    ys: Seq<Real>,
    depth: nat,
    min_leaf: nat,
    x: Seq<Real>,
)
    requires
        depth > 0,
        xs.len() > min_leaf,
        !best_split(xs, ys, min_leaf, width(xs)).loss.same_as(infinity()),
    ensures
        ({
            let b = best_split(xs, ys, min_leaf, width(xs));
            let l = side(
                xs,
                b.feature as int,
                b.threshold,
                x[b.feature as int] <= b.threshold,
                xs.len(),
            );
            tree_of(xs, ys, depth, min_leaf).value_at(x) == tree_of(
                picked(xs, l),
                picked(ys, l),
                (depth - 1) as nat,
                min_leaf,
            ).value_at(x)
        }),
{
}

/// A threshold lies halfway between two neighbouring values, up to rounding.
pub proof fn threshold_is_halfway(xs: Seq<Seq<Real>>, feature: int, v: Seq<Real>, k: int)
    requires
        v == dedup_of(crate::num::series::sorted_of(crate::ml::tree::column(xs, feature))),
        0 <= k < v.len() - 1,
        (v[k] + v[k + 1]).finite(),
        ((v[k] + v[k + 1]) / Real::whole(2)).finite(),
    ensures
        near_ratio(
            thresholds(xs, feature)[k],
            v[k].value() + v[k + 1].value(),
            Real::whole(2).value(),
            3,
        ),
{
    lemma_whole(2);
    lemma_pow2_pos(1074);
    lemma_sum_over(v[k], v[k + 1], Real::whole(2));
}

/// A row is labelled up only where the level rises over the horizon, and down only where it
/// falls; a higher level ahead has no lower label.
pub proof fn label_follows_the_level(
    f: Oracle,
    rows: Seq<FeatureRow>,
    others: Seq<FeatureRow>,
    horizon: int,
    i: int,
)
    requires
        ln_is_monotone(f),
        0 <= i,
        0 <= horizon,
        i + horizon < rows.len(),
        others.len() == rows.len(),
        rows[i].kalman_level == others[i].kalman_level,
        rows[i].kalman_level.finite(),
        Real::whole(0) <= rows[i + horizon].kalman_level,
        rows[i + horizon].kalman_level <= others[i + horizon].kalman_level,
        others[i + horizon].kalman_level.finite(),
    ensures
        ({
            let (now, ahead) = (rows[i].kalman_level, rows[i + horizon].kalman_level);
            let label = label_of(f, rows, horizon, i);
            &&& label == 1 ==> now < ahead
            &&& label == -1i8 ==> ahead < now
            &&& label <= label_of(f, others, horizon, i)
            &&& -1 <= label <= 1
        }),
{
    let (now, ahead, other) = (
        rows[i].kalman_level,
        rows[i + horizon].kalman_level,
        others[i + horizon].kalman_level,
    );
    let small = Real::ratio(3, 1000);
    lemma_whole(0);
    assert(0 * pow2(1074) == 0);
    lemma_small_ratio(10_000_000_000);
    lemma_whole_below_ratio(0, 3, 1000);
    if !(now < Real::ratio(1, 10_000_000_000)) {
        lemma_order_key(Real::ratio(1, 10_000_000_000), now);
        lemma_zero_value(now);
        lemma_over_itself(now);
        lemma_div_monotone(ahead, other, now);
        lemma_between(Real::whole(0), ahead, other);
        let (r, s) = (ln_of(f, ahead / now), ln_of(f, other / now));
        assert(r <= s);
        lemma_order_key(r, s);
        lemma_order_key(r, small);
        lemma_order_key(s, small);
        lemma_zero_value(small);
        lemma_order_key(r, small.neg());
        lemma_order_key(s, small.neg());
        lemma_order_key(Real::whole(0), small);
        if ahead <= now {
            lemma_div_monotone(ahead, now, now);
            assert(r <= Real::whole(0));
        }
        if now <= ahead {
            lemma_div_monotone(now, ahead, now);
            assert(Real::whole(0) <= r);
        }
        lemma_order_key(now, ahead);
    }
}

/// A volatility ahead is at least one in a thousand.
pub proof fn volatility_has_a_floor(rows: Seq<FeatureRow>, horizon: nat, i: int)
    ensures
        Real::ratio(1, 1000) <= vol_of(rows, horizon, i),
{
    lemma_small_ratio(1000);
    crate::num::order::lemma_ratio_order(1, 1000, 1, 100);
    crate::num::order::lemma_ratio_order(1, 1000, 1, 1000);
    let v = vol_of(rows, horizon, i);
    if !v.nan() {
        lemma_order_key(Real::ratio(1, 1000), v);
    }
}

/// The class with the higher score has no smaller probability: up comes first and down
/// last.
pub proof fn higher_score_is_no_less_probable(c: GbClassifier, f: Oracle, x: Seq<Real>)
    requires
        exp_is_monotone(f),
        c.up.value_at(x).finite(),
        c.flat.value_at(x).finite(),
        c.down.value_at(x).finite(),
    ensures
        ({
            let (up, flat, down) = c.proba_at(f, x);
            &&& c.up.value_at(x) <= c.down.value_at(x) ==> up <= down
            &&& c.down.value_at(x) <= c.up.value_at(x) ==> down <= up
            &&& c.up.value_at(x) <= c.flat.value_at(x) ==> up <= flat
            &&& c.flat.value_at(x) <= c.down.value_at(x) ==> flat <= down
        }),
{
    crate::ml::gradient_boost::shares_are_probabilities(
        f,
        c.up.value_at(x),
        c.flat.value_at(x),
        c.down.value_at(x),
    );
}

/// A target is one where the label is the class, and zero elsewhere.
pub proof fn target_marks_the_class(labels: Seq<i8>, class: i8, i: int)
    requires
        0 <= i < labels.len(),
    ensures
        labels[i] == class ==> indicator(labels, class)[i] == Real::whole(1),
        labels[i] != class ==> indicator(labels, class)[i] == Real::whole(0),
{
}

/// No output leans both ways; one that leans long has more chance of up, and one that leans
/// short less.
pub proof fn output_leans_one_way(o: EnsembleOutput)
    requires
        o.directional_edge.finite(),
    ensures
        !(o.leans_long() && o.leans_short()),
        o.leans_long() ==> 0 < o.directional_edge.value(),
        o.leans_short() ==> o.directional_edge.value() < 0,
{
    lemma_small_ratio(4);
    lemma_zero_value(Real::ratio(1, 4));
}

/// The attraction of an output times its volatility is the size of its edge times its
/// confidence, up to rounding.
pub proof fn attraction_is_edge_per_volatility(o: EnsembleOutput)
    requires
        Real::ratio(1, 1000) <= o.predicted_vol_4h,
        o.predicted_vol_4h.finite(),
        (o.directional_edge.abs() * o.signal_confidence).finite(),
        o.attraction().finite(),
    ensures
        exists|t: Real| #[trigger]
            is_product(t, o.directional_edge.abs(), o.signal_confidence) && is_quotient(
                o.attraction(),
                t,
                o.predicted_vol_4h,
            ),
{
    let t = o.directional_edge.abs() * o.signal_confidence;
    lemma_small_ratio(1000);
    lemma_order_key(Real::ratio(1, 1000), o.predicted_vol_4h);
    if o.predicted_vol_4h.max(Real::ratio(1, 1000)) != o.predicted_vol_4h {
        crate::num::rules::lemma_same_value(o.predicted_vol_4h, Real::ratio(1, 1000));
    }
    lemma_operations_are_close(o.directional_edge.abs(), o.signal_confidence);
    lemma_operations_are_close(t, o.predicted_vol_4h);
    assert(is_product(t, o.directional_edge.abs(), o.signal_confidence));
}

} // verus!
