//! Regression trees of bounded depth, split greedily to minimise squared error.
use vstd::prelude::*;

use crate::num::constants::infinity;
use crate::num::series::{
    mean_if_any, mean_or_zero, sorted, sorted_of, squared_deviations, sum_of_seq,
    sum_squared_deviations,
};
use crate::num::Real;

verus! {

/// A node of a tree.
#[derive(Debug)]
pub enum Node {
    Leaf { value: Real },
    Split { feature_index: usize, threshold: Real, left: Box<Node>, right: Box<Node> },
}

impl Node {
    /// Every split asks for one of the first `n` features.
    pub open spec fn fits(&self, n: nat) -> bool
        decreases self,
    {
        match self {
            Node::Leaf { .. } => true,
            Node::Split { feature_index, threshold, left, right } => *feature_index < n
                && left.fits(n) && right.fits(n),
        }
    }

    /// The value of the leaf that features lead to.
    pub open spec fn value_at(&self, x: Seq<Real>) -> Real
        decreases self,
    {
        match self {
            Node::Leaf { value } => *value,
            Node::Split { feature_index, threshold, left, right } => if x[*feature_index as int]
                <= *threshold {
                left.value_at(x)
            } else {
                right.value_at(x)
            },
        }
    }

    /// How many splits lead to the deepest leaf.
    pub open spec fn depth(&self) -> nat
        decreases self,
    {
        match self {
            Node::Leaf { .. } => 0,
            Node::Split { feature_index, threshold, left, right } => 1 + if left.depth()
                >= right.depth() {
                left.depth()
            } else {
                right.depth()
            },
        }
    }

    /// The value of the leaf that features lead to.
    pub fn predict(&self, features: &[Real]) -> (r: Real)
        requires
            self.fits(features@.len()),
        ensures
            r == self.value_at(features@),
        decreases self,
    {
        match self {
            Node::Leaf { value } => *value,
            Node::Split { feature_index, threshold, left, right } => {
                if features[*feature_index] <= *threshold {
                    left.predict(features)
                } else {
                    right.predict(features)
                }
            },
        }
    }
}

/// The samples of a list of vectors.
pub open spec fn samples(v: Seq<Vec<Real>>) -> Seq<Seq<Real>> {
    v.map_values(|r: Vec<Real>| r@)
}

/// Every sample has `n` features.
pub open spec fn rectangular(xs: Seq<Seq<Real>>, n: nat) -> bool {
    forall|i: int| 0 <= i < xs.len() ==> (#[trigger] xs[i]).len() == n
}

/// One feature of all samples.
pub open spec fn column(xs: Seq<Seq<Real>>, feature: int) -> Seq<Real> {
    xs.map_values(|x: Seq<Real>| x[feature])
}

/// A sequence without elements equal to the one kept before.
pub open spec fn dedup_of(s: Seq<Real>) -> Seq<Real>
    decreases s.len(),
{
    if s.len() == 0 {
        Seq::empty()
    } else {
        let d = dedup_of(s.drop_last());
        if d.len() > 0 && s.last().same_as(d.last()) {
            d
        } else {
            d.push(s.last())
        }
    }
}

/// The places among the first `n` samples on one side of a split: at most the
/// threshold on the left.
pub open spec fn side(
    xs: Seq<Seq<Real>>,
    feature: int,
    threshold: Real,
    left: bool,
    n: nat,
) -> Seq<int>
    decreases n,
{
    if n == 0 {
        Seq::empty()
    } else {
        let before = side(xs, feature, threshold, left, (n - 1) as nat);
        if (xs[n - 1][feature] <= threshold) == left {
            before.push(n - 1)
        } else {
            before
        }
    }
}

/// The elements at given places.
pub open spec fn picked<T>(s: Seq<T>, places: Seq<int>) -> Seq<T> {
    places.map_values(|i: int| s[i])
}

/// The sum of squared distances from the mean; zero of nothing.
pub open spec fn squared_error(s: Seq<Real>) -> Real {
    if s.len() == 0 {
        Real::whole(0)
    } else {
        sum_of_seq(squared_deviations(s, mean_or_zero(s)))
    }
}

/// A split with its loss.
#[derive(Debug, Clone, Copy)]
pub struct Candidate {
    pub loss: Real,
    pub feature: usize,
    pub threshold: Real,
}

/// The better of a split and another; a split that leaves too few samples on a
/// side is none.
pub open spec fn better_split(
    xs: Seq<Seq<Real>>,
    ys: Seq<Real>,
    min_leaf: nat,
    best: Candidate,
    feature: usize,
    threshold: Real,
) -> Candidate {
    let l = side(xs, feature as int, threshold, true, xs.len());
    let r = side(xs, feature as int, threshold, false, xs.len());
    let loss = squared_error(picked(ys, l)) + squared_error(picked(ys, r));
    if l.len() < min_leaf || r.len() < min_leaf || !(loss < best.loss) {
        best
    } else {
        Candidate { loss, feature, threshold }
    }
}

/// The thresholds for one feature: halfway between neighbouring values.
pub open spec fn thresholds(xs: Seq<Seq<Real>>, feature: int) -> Seq<Real> {
    let v = dedup_of(sorted_of(column(xs, feature)));
    Seq::new(
        if v.len() == 0 {
            0
        } else {
            (v.len() - 1) as nat
        },
        |i: int| (v[i] + v[i + 1]) / Real::whole(2),
    )
}

/// The best split at the first `n` thresholds of a feature.
pub open spec fn best_in_feature(
    xs: Seq<Seq<Real>>,
    ys: Seq<Real>,
    min_leaf: nat,
    best: Candidate,
    feature: usize,
    n: nat,
) -> Candidate
    decreases n,
{
    if n == 0 {
        best
    } else {
        better_split(
            xs,
            ys,
            min_leaf,
            best_in_feature(xs, ys, min_leaf, best, feature, (n - 1) as nat),
            feature,
            thresholds(xs, feature as int)[n - 1],
        )
    }
}

/// The first of the best splits on the first `n` features; its loss is infinite
/// if there is none.
pub open spec fn best_split(
    xs: Seq<Seq<Real>>,
    ys: Seq<Real>,
    min_leaf: nat,
    n: nat,
) -> Candidate
    decreases n,
{
    if n == 0 {
        Candidate { loss: infinity(), feature: 0, threshold: Real::whole(0) }
    } else {
        best_in_feature(
            xs,
            ys,
            min_leaf,
            best_split(xs, ys, min_leaf, (n - 1) as nat),
            (n - 1) as usize,
            thresholds(xs, n - 1).len(),
        )
    }
}

/// The number of features of the samples.
pub open spec fn width(xs: Seq<Seq<Real>>) -> nat {
    if xs.len() == 0 {
        0
    } else {
        xs[0].len()
    }
}

/// The tree on samples and targets: a leaf at the mean where the depth is used
/// up, the samples are few or no split helps, and otherwise the best split.
pub open spec fn tree_of(
    xs: Seq<Seq<Real>>,
    ys: Seq<Real>,
    max_depth: nat,
    min_leaf: nat,
) -> Node
    decreases max_depth,
{
    let best = best_split(xs, ys, min_leaf, width(xs));
    if max_depth == 0 || xs.len() <= min_leaf || best.loss.same_as(infinity()) {
        Node::Leaf { value: mean_or_zero(ys) }
    } else {
        let l = side(xs, best.feature as int, best.threshold, true, xs.len());
        let r = side(xs, best.feature as int, best.threshold, false, xs.len());
        let d = (max_depth - 1) as nat;
        Node::Split {
            feature_index: best.feature,
            threshold: best.threshold,
            left: Box::new(tree_of(picked(xs, l), picked(ys, l), d, min_leaf)),
            right: Box::new(tree_of(picked(xs, r), picked(ys, r), d, min_leaf)),
        }
    }
}

proof fn lemma_side(xs: Seq<Seq<Real>>, feature: int, threshold: Real, left: bool, n: nat)
    ensures
        side(xs, feature, threshold, left, n).len() <= n,
        forall|i: int|
            0 <= i < side(xs, feature, threshold, left, n).len() ==> 0 <= (#[trigger] side(
                xs,
                feature,
                threshold,
                left,
                n,
            )[i]) < n,
    decreases n,
{
    if n > 0 {
        lemma_side(xs, feature, threshold, left, (n - 1) as nat);
    }
}

proof fn lemma_feature_bound(
    xs: Seq<Seq<Real>>,
    ys: Seq<Real>,
    min_leaf: nat,
    best: Candidate,
    feature: usize,
    n: nat,
    w: nat,
)
    requires
        feature < w,
        best.feature < w || best.loss == infinity(),
    ensures
        ({
            let b = best_in_feature(xs, ys, min_leaf, best, feature, n);
            b.feature < w || b.loss == infinity()
        }),
    decreases n,
{
    if n > 0 {
        lemma_feature_bound(xs, ys, min_leaf, best, feature, (n - 1) as nat, w);
    }
}

proof fn lemma_split_bound(xs: Seq<Seq<Real>>, ys: Seq<Real>, min_leaf: nat, n: nat, w: nat)
    requires
        n <= w <= usize::MAX,
    ensures
        ({
            let b = best_split(xs, ys, min_leaf, n);
            b.feature < w || b.loss == infinity()
        }),
    decreases n,
{
    if n > 0 {
        lemma_split_bound(xs, ys, min_leaf, (n - 1) as nat, w);
        lemma_feature_bound(
            xs,
            ys,
            min_leaf,
            best_split(xs, ys, min_leaf, (n - 1) as nat),
            (n - 1) as usize,
            thresholds(xs, n - 1).len(),
            w,
        );
    }
}

/// A tree is no deeper than allowed, and asks only for features that the samples
/// have.
pub proof fn tree_keeps_bounds(
    xs: Seq<Seq<Real>>,
    ys: Seq<Real>,
    max_depth: nat,
    min_leaf: nat,
    n: nat,
)
    requires
        rectangular(xs, n),
        n <= usize::MAX,
    ensures
        tree_of(xs, ys, max_depth, min_leaf).depth() <= max_depth,
        tree_of(xs, ys, max_depth, min_leaf).fits(n),
    decreases max_depth,
{
    let best = best_split(xs, ys, min_leaf, width(xs));
    if !(max_depth == 0 || xs.len() <= min_leaf || best.loss.same_as(infinity())) {
        let l = side(xs, best.feature as int, best.threshold, true, xs.len());
        let r = side(xs, best.feature as int, best.threshold, false, xs.len());
        let d = (max_depth - 1) as nat;
        lemma_side(xs, best.feature as int, best.threshold, true, xs.len());
        lemma_side(xs, best.feature as int, best.threshold, false, xs.len());
        assert(xs[0].len() == n);
        lemma_split_bound(xs, ys, min_leaf, width(xs), n);
        assert(rectangular(picked(xs, l), n)) by {
            assert forall|i: int| 0 <= i < picked(xs, l).len() implies (
            #[trigger] picked(xs, l)[i]).len() == n by {
                assert(0 <= l[i] < xs.len());
                assert(xs[l[i]].len() == n);
            }
        }
        assert(rectangular(picked(xs, r), n)) by {
            assert forall|i: int| 0 <= i < picked(xs, r).len() implies (
            #[trigger] picked(xs, r)[i]).len() == n by {
                assert(0 <= r[i] < xs.len());
                assert(xs[r[i]].len() == n);
            }
        }
        tree_keeps_bounds(picked(xs, l), picked(ys, l), d, min_leaf, n);
        tree_keeps_bounds(picked(xs, r), picked(ys, r), d, min_leaf, n);
        assert(!infinity().nan());
    }
}

fn dedup(v: &Vec<Real>) -> (r: Vec<Real>)
    ensures
        r@ == dedup_of(v@),
{
    let mut out: Vec<Real> = Vec::new();
    let mut i: usize = 0;
    while i < v.len()
        invariant
            i <= v@.len(),
            out@ == dedup_of(v@.take(i as int)),
        decreases v@.len() - i,
    {
        assert(v@.take(i + 1).drop_last() =~= v@.take(i as int));
        if out.len() == 0 || !(v[i] == out[out.len() - 1]) {
            out.push(v[i]);
        }
        i += 1;
    }
    assert(v@.take(i as int) =~= v@);
    out
}

fn squared_error_of(v: &Vec<Real>) -> (r: Real)
    ensures
        r == squared_error(v@),
{
    if v.len() == 0 {
        return Real::whole(0);
    }
    let mu = mean_if_any(v.as_slice());
    sum_squared_deviations(v.as_slice(), mu)
}

/// The targets on both sides of a split.
fn split_targets(
    features: &Vec<Vec<Real>>,
    targets: &Vec<Real>,
    feature: usize,
    threshold: Real,
) -> (r: (Vec<Real>, Vec<Real>))
    requires
        rectangular(samples(features@), width(samples(features@))),
        feature < width(samples(features@)),
        targets@.len() == features@.len(),
    ensures
        ({
            let xs = samples(features@);
            &&& r.0@ == picked(targets@, side(xs, feature as int, threshold, true, xs.len()))
            &&& r.1@ == picked(targets@, side(xs, feature as int, threshold, false, xs.len()))
        }),
{
    let ghost xs = samples(features@);
    let mut l: Vec<Real> = Vec::new();
    let mut r: Vec<Real> = Vec::new();
    let mut n: usize = 0;
    while n < features.len()
        invariant
            n <= features@.len(),
            xs == samples(features@),
            rectangular(xs, width(xs)),
            feature < width(xs),
            targets@.len() == features@.len(),
            l@ =~= picked(targets@, side(xs, feature as int, threshold, true, n as nat)),
            r@ =~= picked(targets@, side(xs, feature as int, threshold, false, n as nat)),
        decreases features@.len() - n,
    {
        assert(xs[n as int].len() == width(xs));
        assert(xs[n as int] == features@[n as int]@);
        if features[n][feature] <= threshold {
            l.push(targets[n]);
        } else {
            r.push(targets[n]);
        }
        n += 1;
    }
    (l, r)
}

/// The samples on one side of a split.
fn split_samples(
    features: &Vec<Vec<Real>>,
    feature: usize,
    threshold: Real,
    left: bool,
) -> (r: Vec<Vec<Real>>)
    requires
        rectangular(samples(features@), width(samples(features@))),
        feature < width(samples(features@)),
    ensures
        ({
            let xs = samples(features@);
            samples(r@) == picked(xs, side(xs, feature as int, threshold, left, xs.len()))
        }),
{
    let ghost xs = samples(features@);
    let mut out: Vec<Vec<Real>> = Vec::new();
    let mut n: usize = 0;
    while n < features.len()
        invariant
            n <= features@.len(),
            xs == samples(features@),
            rectangular(xs, width(xs)),
            feature < width(xs),
            samples(out@) =~= picked(xs, side(xs, feature as int, threshold, left, n as nat)),
        decreases features@.len() - n,
    {
        assert(xs[n as int].len() == width(xs));
        assert(xs[n as int] == features@[n as int]@);
        let low = features[n][feature] <= threshold;
        let ghost before = side(xs, feature as int, threshold, left, n as nat);
        if low == left {
            let copy = copy_row(&features[n]);
            let ghost kept = out@;
            out.push(copy);
            proof {
                assert(samples(out@) =~= samples(kept).push(xs[n as int]));
                assert(picked(xs, before.push(n as int)) =~= picked(xs, before).push(xs[n as int]));
            }
        }
        n += 1;
    }
    out
}

fn copy_row(v: &Vec<Real>) -> (r: Vec<Real>)
    ensures
        r@ == v@,
{
    let mut out: Vec<Real> = Vec::new();
    let mut i: usize = 0;
    while i < v.len()
        invariant
            i <= v@.len(),
            out@ =~= v@.take(i as int),
        decreases v@.len() - i,
    {
        out.push(v[i]);
        i += 1;
    }
    assert(out@ =~= v@);
    out
}

fn search_feature(
    features: &Vec<Vec<Real>>,
    targets: &Vec<Real>,
    min_leaf: usize,
    best: Candidate,
    feature: usize,
) -> (r: Candidate)
    requires
        rectangular(samples(features@), width(samples(features@))),
        feature < width(samples(features@)),
        targets@.len() == features@.len(),
    ensures
        ({
            let xs = samples(features@);
            r == best_in_feature(
                xs,
                targets@,
                min_leaf as nat,
                best,
                feature,
                thresholds(xs, feature as int).len(),
            )
        }),
{
    let ghost xs = samples(features@);
    let mut col: Vec<Real> = Vec::new();
    let mut n: usize = 0;
    while n < features.len()
        invariant
            n <= features@.len(),
            xs == samples(features@),
            rectangular(xs, width(xs)),
            feature < width(xs),
            col@ =~= column(xs, feature as int).take(n as int),
        decreases features@.len() - n,
    {
        assert(xs[n as int].len() == width(xs));
        assert(xs[n as int] == features@[n as int]@);
        col.push(features[n][feature]);
        n += 1;
    }
    assert(col@ =~= column(xs, feature as int));
    let vals = dedup(&sorted(col.as_slice()));
    let ghost ts = thresholds(xs, feature as int);
    let mut b = best;
    let mut i: usize = 0;
    while i < vals.len() && 1 < vals.len() - i
        invariant
            i <= ts.len(),
            xs == samples(features@),
            rectangular(xs, width(xs)),
            feature < width(xs),
            targets@.len() == features@.len(),
            vals@ == dedup_of(sorted_of(column(xs, feature as int))),
            ts == thresholds(xs, feature as int),
            i <= vals@.len(),
            b == best_in_feature(xs, targets@, min_leaf as nat, best, feature, i as nat),
        decreases vals@.len() - i,
    {
        let threshold = (vals[i] + vals[i + 1]) / Real::whole(2);
        let (l, r) = split_targets(features, targets, feature, threshold);
        if l.len() >= min_leaf && r.len() >= min_leaf {
            let loss = squared_error_of(&l) + squared_error_of(&r);
            if loss < b.loss {
                b = Candidate { loss, feature, threshold };
            }
        }
        i += 1;
    }
    b
}

/// Builds the tree on samples and targets.
pub fn build_tree(
    features: &Vec<Vec<Real>>,
    targets: &Vec<Real>,
    max_depth: usize,
    min_samples_leaf: usize,
) -> (r: Node)
    requires
        rectangular(samples(features@), width(samples(features@))),
        targets@.len() == features@.len(),
    ensures
        r == tree_of(samples(features@), targets@, max_depth as nat, min_samples_leaf as nat),
    decreases max_depth,
{
    let ghost xs = samples(features@);
    if max_depth == 0 || features.len() <= min_samples_leaf {
        return Node::Leaf { value: mean_if_any(targets.as_slice()) };
    }
    let n_features: usize = features[0].len();
    assert(xs[0] == features@[0]@);
    let mut best = Candidate { loss: infinity(), feature: 0, threshold: Real::whole(0) };
    let mut n: usize = 0;
    while n < n_features
        invariant
            n <= n_features,
            n_features == width(xs),
            xs == samples(features@),
            rectangular(xs, width(xs)),
            targets@.len() == features@.len(),
            best == best_split(xs, targets@, min_samples_leaf as nat, n as nat),
        decreases n_features - n,
    {
        best = search_feature(features, targets, min_samples_leaf, best, n);
        n += 1;
    }
    if best.loss == infinity() {
        return Node::Leaf { value: mean_if_any(targets.as_slice()) };
    }
    proof {
        lemma_split_bound(xs, targets@, min_samples_leaf as nat, width(xs), width(xs));
        lemma_side(xs, best.feature as int, best.threshold, true, xs.len());
        lemma_side(xs, best.feature as int, best.threshold, false, xs.len());
        assert(!infinity().nan());
    }
    let (l_targ, r_targ) = split_targets(features, targets, best.feature, best.threshold);
    let l_feat = split_samples(features, best.feature, best.threshold, true);
    let r_feat = split_samples(features, best.feature, best.threshold, false);
    proof {
        let l = side(xs, best.feature as int, best.threshold, true, xs.len());
        let r = side(xs, best.feature as int, best.threshold, false, xs.len());
        lemma_picked_rectangular(xs, l);
        lemma_picked_rectangular(xs, r);
        assert(samples(l_feat@).len() == l_feat@.len());
        assert(samples(r_feat@).len() == r_feat@.len());
    }
    Node::Split {
        feature_index: best.feature,
        threshold: best.threshold,
        left: Box::new(build_tree(&l_feat, &l_targ, max_depth - 1, min_samples_leaf)),
        right: Box::new(build_tree(&r_feat, &r_targ, max_depth - 1, min_samples_leaf)),
    }
}

proof fn lemma_picked_rectangular(xs: Seq<Seq<Real>>, places: Seq<int>)
    requires
        rectangular(xs, width(xs)),
        forall|i: int| 0 <= i < places.len() ==> 0 <= (#[trigger] places[i]) < xs.len(),
    ensures
        rectangular(picked(xs, places), width(picked(xs, places))),
{
    let p = picked(xs, places);
    assert forall|i: int| 0 <= i < p.len() implies (#[trigger] p[i]).len() == width(p) by {
        assert(0 <= places[i] < xs.len());
        assert(0 <= places[0] < xs.len());
        assert(xs[places[i]].len() == width(xs));
        assert(xs[places[0]].len() == width(xs));
        assert(p[0] == xs[places[0]]);
    }
}

} // verus!
