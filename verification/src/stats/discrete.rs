//! Histogram distribution with smoothed counts.
//!
//! The width of the bins follows Scott's rule, with five to a hundred bins; half
//! an observation is added to each bin, so that none is empty.
use vstd::arithmetic::power2::*;
use vstd::prelude::*;
use vstd::slice::slice_subrange;

use crate::features::technical::{highest, lowest};
use crate::num::constants::{infinity, minus_infinity};
use crate::num::drift::{exact_sum, lemma_add_mag, lemma_div_close, lemma_quotient, size, PARTS};
use crate::num::elementary::{ask, is_function, ln, ln_of, oracle, Elementary, Oracle};
use crate::num::magnitude::lemma_units_zero;
use crate::num::model::BINADE;
use crate::num::order::{
    clamp_unit, lemma_count, lemma_halves, lemma_round_monotone, lemma_whole,
};
use crate::num::series::{all_numbers, mean, mean_of, sorted, sorted_of, sum, sum_of_seq};
use crate::num::Real;
use crate::stats::common::{ks_of, ks_statistic, sample_std, spread_of, TooFewObservations};

verus! {

/// Histogram distribution.
#[derive(Debug)]
pub struct DiscreteDist {
    /// Edges of the bins, evenly spaced.
    pub edges: Vec<Real>,
    pub bin_width: Real,
    /// Probability of each bin.
    pub probs: Vec<Real>,
    /// Density of each bin.
    pub densities: Vec<Real>,
    pub log_likelihood: Real,
    pub ks_stat: Real,
    /// Filled bins less one.
    pub n_free_params: usize,
}

/// The least integer not below a number, saturating as an index.
pub open spec fn spec_ceil_index(x: Real) -> usize {
    let i = x.index();
    if Real::count(i) < x && i < usize::MAX {
        (i + 1) as usize
    } else {
        i
    }
}

#[verifier::when_used_as_spec(spec_ceil_index)]
pub fn ceil_index(x: Real) -> (r: usize)
    ensures
        r == spec_ceil_index(x),
{
    let i: usize = x.index();
    if Real::count(i) < x && i < usize::MAX {
        i + 1
    } else {
        i
    }
}

/// The grid of the bins.
pub struct Grid {
    pub lo: Real,
    pub width: Real,
    pub bins: nat,
}

/// The grid for observations: the range extended by one raw width on each side.
pub open spec fn grid_for(f: Oracle, rets: Seq<Real>) -> Grid {
    let sigma = spread_of(rets, mean_of(rets)).max(Real::ratio(1, 10_000_000_000));
    let raw = Real::ratio(7, 2) * sigma * f(
        Elementary::Powf(
            Real::count(rets.len() as usize),
            Real::whole(1).neg() / Real::whole(3),
        ),
    );
    let lo = lowest(rets, rets.len()) - raw;
    let hi = highest(rets, rets.len()) + raw;
    let n = ceil_index((hi - lo) / raw);
    let bins = if n < 5 {
        5nat
    } else if n > 100 {
        100nat
    } else {
        n as nat
    };
    Grid { lo, width: (hi - lo) / Real::count(bins as usize), bins }
}

/// The bin of an observation.
pub open spec fn bin_of(g: Grid, x: Real) -> int {
    let i = ((x - g.lo) / g.width).index();
    if i < g.bins {
        i as int
    } else {
        g.bins - 1
    }
}

/// The edges of the bins.
pub open spec fn edges_of(g: Grid) -> Seq<Real> {
    Seq::new(g.bins + 1, |i: int| g.lo + Real::count(i as usize) * g.width)
}

/// How many of the first `n` observations fall into each bin.
pub open spec fn counts_of(g: Grid, rets: Seq<Real>, n: nat) -> Seq<nat>
    decreases n,
{
    if n == 0 {
        Seq::new(g.bins, |i: int| 0nat)
    } else {
        let c = counts_of(g, rets, (n - 1) as nat);
        let b = bin_of(g, rets[n - 1]);
        c.update(b, c[b] + 1)
    }
}

/// The sum of the first `n` counts.
pub open spec fn counted(c: Seq<nat>, n: nat) -> nat
    decreases n,
{
    if n == 0 {
        0
    } else {
        counted(c, (n - 1) as nat) + c[n - 1]
    }
}

/// How many of the first `n` counts are positive.
pub open spec fn filled(c: Seq<nat>, n: nat) -> nat
    decreases n,
{
    if n == 0 {
        0
    } else {
        filled(c, (n - 1) as nat) + if c[n - 1] > 0 {
            1nat
        } else {
            0nat
        }
    }
}

/// The smoothed probabilities of the bins.
pub open spec fn probs_of(c: Seq<nat>, n: nat) -> Seq<Real> {
    let half = Real::ratio(1, 2);
    let total = Real::count(n as usize) + half * Real::count(c.len() as usize);
    Seq::new(c.len(), |i: int| (Real::count(c[i] as usize) + half) / total)
}

/// The densities of the bins.
pub open spec fn densities_of(probs: Seq<Real>, width: Real) -> Seq<Real> {
    probs.map_values(|p: Real| p / width)
}

/// The piecewise linear distribution function.
pub open spec fn discrete_cdf_of(edges: Seq<Real>, probs: Seq<Real>, width: Real, x: Real) -> Real {
    let lo = edges[0];
    let i = ((x - lo) / width).index();
    let at = if i < probs.len() {
        i as int
    } else {
        probs.len() - 1
    };
    if x <= lo {
        Real::whole(0)
    } else if x >= edges.last() {
        Real::whole(1)
    } else {
        sum_of_seq(probs.take(at)) + probs[at] * ((x - edges[at]) / width).clamp(
            Real::whole(0),
            Real::whole(1),
        )
    }
}

/// The log densities of observations.
pub open spec fn bin_log_densities(
    f: Oracle,
    g: Grid,
    densities: Seq<Real>,
    rets: Seq<Real>,
) -> Seq<Real> {
    rets.map_values(|r: Real| ln_of(f, densities[bin_of(g, r)]))
}

/// The distribution function at observations in ascending order.
pub open spec fn discrete_cdfs(
    edges: Seq<Real>,
    probs: Seq<Real>,
    width: Real,
    rets: Seq<Real>,
) -> Seq<Real> {
    sorted_of(rets).map_values(|x: Real| discrete_cdf_of(edges, probs, width, x))
}

/// The distribution is that fitted to observations.
pub open spec fn is_histogram(d: DiscreteDist, f: Oracle, rets: Seq<Real>) -> bool {
    let g = grid_for(f, rets);
    let c = counts_of(g, rets, rets.len());
    let probs = probs_of(c, rets.len());
    let densities = densities_of(probs, g.width);
    &&& d.edges@ == edges_of(g)
    &&& d.bin_width == g.width
    &&& d.probs@ == probs
    &&& d.densities@ == densities
    &&& d.log_likelihood == sum_of_seq(bin_log_densities(f, g, densities, rets))
    &&& d.ks_stat == ks_of(discrete_cdfs(edges_of(g), probs, g.width, rets), rets.len())
    &&& d.n_free_params == if filled(c, g.bins) == 0 {
        0
    } else {
        (filled(c, g.bins) - 1) as nat
    }
}

proof fn lemma_counted_update(c: Seq<nat>, b: int, n: nat)
    requires
        0 <= b < c.len(),
        n <= c.len(),
    ensures
        counted(c.update(b, c[b] + 1), n) == counted(c, n) + if b < n {
            1nat
        } else {
            0nat
        },
    decreases n,
{
    if n > 0 {
        lemma_counted_update(c, b, (n - 1) as nat);
    }
}

/// Every observation is counted in exactly one bin.
pub proof fn every_observation_is_counted(g: Grid, rets: Seq<Real>, n: nat)
    requires
        g.bins > 0,
        n <= rets.len(),
    ensures
        counts_of(g, rets, n).len() == g.bins,
        counted(counts_of(g, rets, n), g.bins) == n,
        forall|i: int| 0 <= i < g.bins ==> (#[trigger] counts_of(g, rets, n)[i]) <= n,
    decreases n,
{
    if n == 0 {
        lemma_counted_zero(counts_of(g, rets, 0), g.bins);
    } else {
        every_observation_is_counted(g, rets, (n - 1) as nat);
        let c = counts_of(g, rets, (n - 1) as nat);
        let b = bin_of(g, rets[n - 1]);
        lemma_counted_update(c, b, g.bins);
    }
}

proof fn lemma_counted_zero(c: Seq<nat>, n: nat)
    requires
        n <= c.len(),
        forall|i: int| 0 <= i < c.len() ==> c[i] == 0,
    ensures
        counted(c, n) == 0,
    decreases n,
{
    if n > 0 {
        lemma_counted_zero(c, (n - 1) as nat);
    }
}

/// One half, exactly.
proof fn lemma_half()
    ensures
        Real::ratio(1, 2).finite(),
        Real::ratio(1, 2).value() == pow2(1073),
        !Real::ratio(1, 2).negative(),
        pow2(1074) == 2 * pow2(1073),
{
    reveal(Real::spec_div);
    lemma_whole(1);
    lemma_whole(2);
    lemma_pow2_unfold(1074);
    lemma_pow2_pos(1073);
    let w = pow2(1074);
    let b = lemma_halves(1);
    assert(1 * w == w && 2 * w == 2 * w && 1 * pow2(1073) == pow2(1073));
    assert((w * w) * 1 == pow2(1073) * (2 * w)) by (nonlinear_arith)
        requires
            w == 2 * pow2(1073),
    ;
    lemma_round_monotone(w * w, 2 * w, pow2(1073), 1);
    lemma_round_monotone(pow2(1073), 1, w * w, 2 * w);
    lemma_units_zero(Real::whole(2).mag());
}

/// The mass of a bin before it is divided by the total, and the total.
proof fn lemma_mass_parts(c: nat, n: nat, bins: nat)
    requires
        c <= n < 0x4_0000_0000_0000,
        n <= usize::MAX,
        0 < bins < 0x4_0000_0000_0000,
        bins <= usize::MAX,
    ensures
        ({
            let half = Real::ratio(1, 2);
            let x = Real::count(c as usize) + half;
            let t = Real::count(n as usize) + half * Real::count(bins as usize);
            &&& x.finite() && x.value() == (2 * c + 1) * pow2(1073)
            &&& t.finite() && t.value() == (2 * n + bins) * pow2(1073)
        }),
{
    let half = Real::ratio(1, 2);
    let h = pow2(1073);
    lemma_half();
    lemma_pow2_pos(1073);
    lemma_count(c as usize);
    lemma_count(n as usize);
    lemma_count(bins as usize);
    lemma_whole(c as i64);
    lemma_whole(n as i64);
    lemma_whole(bins as i64);
    let w = pow2(1074);
    let x = Real::count(c as usize) + half;
    assert(c * w + h == (2 * c + 1) * h) by (nonlinear_arith)
        requires
            w == 2 * h,
    ;
    let bx = lemma_halves(2 * c + 1);
    lemma_add_mag(Real::count(c as usize), half);
    assert((2 * c + 1) * h > 0) by (nonlinear_arith)
        requires
            h > 0,
    ;
    let k = Real::count(bins as usize);
    let p = half * k;
    let bp = lemma_halves(bins);
    assert(p.mag() == bp && !p.negative() && p.finite()) by {
        reveal(Real::spec_mul);
        assert(h * (bins * w) == (bins * h) * w) by (nonlinear_arith);
        assert((h * (bins * w)) * 1 == (bins * h) * w);
        lemma_round_monotone(h * (bins * w), w, bins * h, 1);
        lemma_round_monotone(bins * h, 1, h * (bins * w), w);
    }
    let t = Real::count(n as usize) + p;
    let bt = lemma_halves(2 * n + bins);
    assert(n * w + bins * h == (2 * n + bins) * h) by (nonlinear_arith)
        requires
            w == 2 * h,
    ;
    lemma_add_mag(Real::count(n as usize), p);
    assert((2 * n + bins) * h > 0) by (nonlinear_arith)
        requires
            h > 0,
            bins > 0,
    ;
}

/// The masses of the first `k` bins, times the total, are the counts up to
/// rounding.
proof fn lemma_masses(c: Seq<nat>, n: nat, k: nat)
    requires
        1 < c.len() < 0x4_0000_0000_0000,
        c.len() <= usize::MAX,
        n < 0x4_0000_0000_0000,
        n <= usize::MAX,
        k <= c.len(),
        counted(c, c.len()) == n,
    ensures
        ({
            let t = (2 * n + c.len()) * pow2(1073);
            let m = (2 * counted(c, k) + k) * pow2(1073);
            size(exact_sum(probs_of(c, n).take(k as int)) * t - m * pow2(1074)) * PARTS <= m
                * pow2(1074) + k * (t * BINADE)
        }),
    decreases k,
{
    let (h, w) = (pow2(1073) as int, pow2(1074) as int);
    let t = (2 * n + c.len()) * h;
    let probs = probs_of(c, n);
    if k == 0 {
        assert(0 * t == 0 && 0 * h == 0 && 0 * w == 0 && 0 * (t * BINADE) == 0) by (nonlinear_arith);
        assert(probs.take(0).len() == 0);
    } else {
        let j = (k - 1) as nat;
        lemma_masses(c, n, j);
        lemma_count_bounded(c, j, c.len());
        let half = Real::ratio(1, 2);
        let total = Real::count(n as usize) + half * Real::count(c.len() as usize);
        let x = Real::count(c[j as int] as usize) + half;
        lemma_mass_parts(c[j as int], n, c.len());
        lemma_pow2_pos(1073);
        lemma_pow2_pos(1074);
        let v = (2 * c[j as int] + 1) * h;
        assert(0 < v < t) by (nonlinear_arith)
            requires
                v == (2 * c[j as int] + 1) * h,
                t == (2 * n + c.len()) * h,
                c[j as int] <= n,
                c.len() > 1,
                h > 0,
        ;
        lemma_whole(0);
        assert(0 * w == 0);
        lemma_quotient(x, total);
        lemma_div_close(x, total);
        let p = probs[j as int].value();
        let before = exact_sum(probs.take(j as int));
        assert(probs.take(k as int).drop_last() =~= probs.take(j as int));
        let m0 = (2 * counted(c, j) + j) * h;
        let m = (2 * counted(c, k) + k) * h;
        assert(m == m0 + v) by (nonlinear_arith)
            requires
                m == (2 * (counted(c, j) + c[j as int]) + (j + 1)) * h,
                m0 == (2 * counted(c, j) + j) * h,
                v == (2 * c[j as int] + 1) * h,
        ;
        assert((before + p) * t == before * t + p * t) by (nonlinear_arith);
        assert(m * w == m0 * w + v * w) by (nonlinear_arith)
            requires
                m == m0 + v,
        ;
        assert(k * (t * BINADE) == j * (t * BINADE) + t * BINADE) by (nonlinear_arith)
            requires
                k == j + 1,
        ;
    }
}

proof fn lemma_count_bounded(c: Seq<nat>, j: nat, n: nat)
    requires
        j < n <= c.len(),
    ensures
        c[j as int] <= counted(c, n),
    decreases n,
{
    if j < n - 1 {
        lemma_count_bounded(c, j, (n - 1) as nat);
    }
}

/// The smoothed masses of all bins sum to one, up to one part in `PARTS` and half
/// a least unit per bin.
pub proof fn masses_sum_to_one(c: Seq<nat>, n: nat)
    requires
        1 < c.len() < 0x4_0000_0000_0000,
        c.len() <= usize::MAX,
        n < 0x4_0000_0000_0000,
        n <= usize::MAX,
        counted(c, c.len()) == n,
    ensures
        size(exact_sum(probs_of(c, n)) - pow2(1074)) * PARTS <= pow2(1074) + c.len() * BINADE,
{
    let (h, w) = (pow2(1073) as int, pow2(1074) as int);
    lemma_masses(c, n, c.len());
    lemma_pow2_pos(1073);
    let probs = probs_of(c, n);
    assert(probs.take(c.len() as int) =~= probs);
    let t = (2 * n + c.len()) * h;
    assert(t > 0) by (nonlinear_arith)
        requires
            t == (2 * n + c.len()) * h,
            h > 0,
            c.len() > 0,
    ;
    let s = exact_sum(probs);
    let k = c.len() as int;
    assert(size(s * t - t * w) == size(s - w) * t) by (nonlinear_arith)
        requires
            t > 0,
    ;
    assert(size(s - w) * PARTS <= w + k * BINADE) by (nonlinear_arith)
        requires
            size(s - w) * t * PARTS <= t * w + k * (t * BINADE),
            t > 0,
    ;
}

/// Probabilities seen so far, and the bin where they reach a target.
pub struct Reach {
    pub before: Real,
    pub at: Option<int>,
}

/// Where the probabilities of the first `n` bins reach a target.
pub open spec fn reach(probs: Seq<Real>, target: Real, n: nat) -> Reach
    decreases n,
{
    if n == 0 {
        Reach { before: Real::whole(0), at: None }
    } else {
        let r = reach(probs, target, (n - 1) as nat);
        let next = r.before + probs[n - 1];
        if r.at is Some {
            r
        } else if next >= target {
            Reach { before: r.before, at: Some(n - 1) }
        } else {
            Reach { before: next, at: None }
        }
    }
}

proof fn lemma_reached(probs: Seq<Real>, target: Real, n: nat, m: nat)
    requires
        n <= m,
        reach(probs, target, n).at is Some,
    ensures
        reach(probs, target, m) == reach(probs, target, n),
    decreases m,
{
    if n < m {
        lemma_reached(probs, target, n, (m - 1) as nat);
    }
}

/// Weighted sum of midpoints, and probability, of what lies below `q` in the
/// first `n` bins.
pub open spec fn below(
    edges: Seq<Real>,
    probs: Seq<Real>,
    width: Real,
    q: Real,
    n: nat,
) -> (Real, Real)
    decreases n,
{
    if n == 0 {
        (Real::whole(0), Real::whole(0))
    } else {
        let (weighted, prob) = below(edges, probs, width, q, (n - 1) as nat);
        let left = edges[n - 1];
        let right = edges[n as int];
        let p = probs[n - 1];
        let two = Real::whole(2);
        if right <= q {
            (weighted + p * (left + right) / two, prob + p)
        } else if left < q {
            let frac = (q - left) / width;
            (weighted + p * frac * (left + q) / two, prob + p * frac)
        } else {
            (weighted, prob)
        }
    }
}

fn discrete_cdf(edges: &Vec<Real>, probs: &Vec<Real>, width: Real, x: Real) -> (r: Real)
    requires
        probs@.len() > 0,
        edges@.len() == probs@.len() + 1,
    ensures
        r == discrete_cdf_of(edges@, probs@, width, x),
{
    let lo = edges[0];
    let hi = edges[edges.len() - 1];
    if x <= lo {
        return Real::whole(0);
    }
    if x >= hi {
        return Real::whole(1);
    }
    let i: usize = ((x - lo) / width).index();
    let at: usize = if i < probs.len() {
        i
    } else {
        probs.len() - 1
    };
    let first = slice_subrange(probs.as_slice(), 0, at);
    assert(first@ =~= probs@.take(at as int));
    let complete = sum(first);
    let frac = clamp_unit((x - edges[at]) / width);
    complete + probs[at] * frac
}

/// A grid as it is computed.
#[derive(Debug, Clone, Copy)]
struct Bins {
    lo: Real,
    width: Real,
    bins: usize,
}

fn make_grid<M: Fn(Elementary) -> Real>(rets: &[Real], math: &M) -> (r: Bins)
    requires
        is_function(*math),
    ensures
        ({
            let g = grid_for(oracle(*math), rets@);
            r.lo == g.lo && r.width == g.width && r.bins == g.bins && 5 <= r.bins <= 100
        }),
{
    let mu = mean(rets);
    let sigma = sample_std(rets, mu).max(Real::ratio(1, 10_000_000_000));
    let raw = Real::ratio(7, 2) * sigma * ask(
        math,
        Elementary::Powf(Real::count(rets.len()), Real::whole(1).neg() / Real::whole(3)),
    );
    let mut min_val = infinity();
    let mut max_val = minus_infinity();
    let mut i: usize = 0;
    while i < rets.len()
        invariant
            i <= rets@.len(),
            min_val == lowest(rets@, i as nat),
            max_val == highest(rets@, i as nat),
        decreases rets@.len() - i,
    {
        min_val = min_val.min(rets[i]);
        max_val = max_val.max(rets[i]);
        i += 1;
    }
    let lo = min_val - raw;
    let hi = max_val + raw;
    let n: usize = ceil_index((hi - lo) / raw);
    let bins: usize = if n < 5 {
        5
    } else if n > 100 {
        100
    } else {
        n
    };
    Bins { lo, width: (hi - lo) / Real::count(bins), bins }
}

fn bin(b: &Bins, x: Real) -> (r: usize)
    requires
        b.bins > 0,
    ensures
        r == bin_of(Grid { lo: b.lo, width: b.width, bins: b.bins as nat }, x),
        r < b.bins,
{
    let i: usize = ((x - b.lo) / b.width).index();
    if i < b.bins {
        i
    } else {
        b.bins - 1
    }
}

/// The counts as numbers.
pub open spec fn as_nats(v: Seq<usize>) -> Seq<nat> {
    v.map_values(|c: usize| c as nat)
}

fn count_bins(b: &Bins, rets: &[Real], Ghost(g): Ghost<Grid>) -> (r: Vec<usize>)
    requires
        b.bins > 0,
        g == (Grid { lo: b.lo, width: b.width, bins: b.bins as nat }),
    ensures
        as_nats(r@) == counts_of(g, rets@, rets@.len()),
        r@.len() == b.bins,
{
    let mut counts: Vec<usize> = Vec::new();
    let mut k: usize = 0;
    while k < b.bins
        invariant
            k <= b.bins,
            counts@.len() == k,
            forall|i: int| 0 <= i < k ==> #[trigger] counts@[i] == 0,
        decreases b.bins - k,
    {
        counts.push(0);
        k += 1;
    }
    assert(as_nats(counts@) =~= counts_of(g, rets@, 0));
    let mut n: usize = 0;
    while n < rets.len()
        invariant
            n <= rets@.len(),
            b.bins > 0,
            g == (Grid { lo: b.lo, width: b.width, bins: b.bins as nat }),
            counts@.len() == b.bins,
            as_nats(counts@) == counts_of(g, rets@, n as nat),
        decreases rets@.len() - n,
    {
        let at: usize = bin(b, rets[n]);
        let ghost before = counts@;
        proof {
            every_observation_is_counted(g, rets@, n as nat);
            assert(counts_of(g, rets@, n as nat)[at as int] <= n);
            assert(as_nats(counts@)[at as int] == counts@[at as int]);
        }
        let c: usize = counts[at];
        counts.set(at, c + 1);
        assert(as_nats(counts@) =~= as_nats(before).update(
            at as int,
            as_nats(before)[at as int] + 1,
        ));
        n += 1;
    }
    counts
}

impl DiscreteDist {
    /// There is one probability and density per bin, and one edge more.
    pub open spec fn wf(&self) -> bool {
        &&& self.probs@.len() > 0
        &&& self.edges@.len() == self.probs@.len() + 1
        &&& self.densities@.len() == self.probs@.len()
    }

    /// Fits the histogram to observations; nothing with fewer than thirty.
    pub fn fit<M: Fn(Elementary) -> Real>(rets: &[Real], math: &M) -> (r: Result<
        Self,
        TooFewObservations,
    >)
        requires
            is_function(*math),
            rets@.len() >= 30 ==> all_numbers(rets@),
        ensures
            rets@.len() < 30 ==> r == Err::<DiscreteDist, TooFewObservations>(
                TooFewObservations { have: rets@.len() as usize },
            ),
            rets@.len() >= 30 ==> (r matches Ok(d) && d.wf() && is_histogram(
                d,
                oracle(*math),
                rets@,
            )),
    {
        let n: usize = rets.len();
        if n < 30 {
            return Err(TooFewObservations { have: n });
        }
        let ghost f = oracle(*math);
        let ghost g = grid_for(f, rets@);
        let b = make_grid(rets, math);
        let counts = count_bins(&b, rets, Ghost(g));
        let ghost c = counts_of(g, rets@, rets@.len());
        let half = Real::ratio(1, 2);
        let total = Real::count(n) + half * Real::count(b.bins);
        let ghost goal_p = probs_of(c, rets@.len());
        let ghost goal_d = densities_of(goal_p, g.width);
        let ghost goal_e = edges_of(g);
        let mut edges: Vec<Real> = Vec::new();
        let mut probs: Vec<Real> = Vec::new();
        let mut densities: Vec<Real> = Vec::new();
        let mut n_filled: usize = 0;
        let mut i: usize = 0;
        while i < b.bins
            invariant
                i <= b.bins,
                b.lo == g.lo,
                b.width == g.width,
                b.bins == g.bins,
                counts@.len() == b.bins,
                as_nats(counts@) == c,
                half == Real::ratio(1, 2),
                n == rets@.len(),
                total == Real::count(n) + half * Real::count(b.bins),
                goal_p == probs_of(c, rets@.len()),
                goal_d == densities_of(goal_p, g.width),
                goal_e == edges_of(g),
                edges@ =~= goal_e.take(i as int),
                probs@ =~= goal_p.take(i as int),
                densities@ =~= goal_d.take(i as int),
                n_filled <= i,
                n_filled == filled(c, i as nat),
            decreases b.bins - i,
        {
            assert(c[i as int] == counts@[i as int]);
            edges.push(b.lo + Real::count(i) * b.width);
            let p = (Real::count(counts[i]) + half) / total;
            probs.push(p);
            densities.push(p / b.width);
            if counts[i] > 0 {
                n_filled += 1;
            }
            i += 1;
        }
        edges.push(b.lo + Real::count(b.bins) * b.width);
        assert(edges@ =~= goal_e);
        assert(probs@ =~= goal_p);
        assert(densities@ =~= goal_d);
        let order = sorted(rets);
        let ghost goal_l = bin_log_densities(f, g, goal_d, rets@);
        let ghost goal_t = discrete_cdfs(goal_e, goal_p, g.width, rets@);
        let mut logs: Vec<Real> = Vec::new();
        let mut theoretical: Vec<Real> = Vec::new();
        let mut j: usize = 0;
        while j < n
            invariant
                is_function(*math),
                f == oracle(*math),
                j <= n,
                n == rets@.len(),
                b.lo == g.lo,
                b.width == g.width,
                b.bins == g.bins,
                b.bins >= 5,
                edges@ == goal_e,
                probs@ == goal_p,
                densities@ == goal_d,
                edges@.len() == b.bins + 1,
                probs@.len() == b.bins,
                densities@.len() == b.bins,
                order@ == sorted_of(rets@),
                order@.len() == n,
                goal_l == bin_log_densities(f, g, goal_d, rets@),
                goal_t == discrete_cdfs(goal_e, goal_p, g.width, rets@),
                logs@ =~= goal_l.take(j as int),
                theoretical@ =~= goal_t.take(j as int),
            decreases n - j,
        {
            let at: usize = bin(&b, rets[j]);
            logs.push(ln(math, densities[at]));
            theoretical.push(discrete_cdf(&edges, &probs, b.width, order[j]));
            j += 1;
        }
        assert(logs@ =~= goal_l);
        assert(theoretical@ =~= goal_t);
        Ok(
            Self {
                edges,
                bin_width: b.width,
                probs,
                densities,
                log_likelihood: sum(logs.as_slice()),
                ks_stat: ks_statistic(&theoretical),
                n_free_params: n_filled.saturating_sub(1),
            },
        )
    }

    pub open spec fn spec_aic(&self) -> Real {
        Real::whole(2) * Real::count(self.n_free_params) - Real::whole(2) * self.log_likelihood
    }

    /// Akaike's criterion with one parameter less than there are filled bins.
    #[verifier::when_used_as_spec(spec_aic)]
    pub fn aic(&self) -> (r: Real)
        ensures
            r == self.spec_aic(),
    {
        Real::whole(2) * Real::count(self.n_free_params) - Real::whole(2) * self.log_likelihood
    }

    /// The log density; minus infinity outside the grid.
    pub open spec fn log_pdf_of(&self, f: Oracle, x: Real) -> Real {
        let lo = self.edges@[0];
        let i = ((x - lo) / self.bin_width).index();
        if x < lo || x > self.edges@.last() {
            minus_infinity()
        } else {
            ln_of(
                f,
                self.densities@[if i < self.densities@.len() {
                    i as int
                } else {
                    self.densities@.len() - 1
                }],
            )
        }
    }

    /// The log density; minus infinity outside the grid.
    pub fn log_pdf<M: Fn(Elementary) -> Real>(&self, x: Real, math: &M) -> (r: Real)
        requires
            self.wf(),
            is_function(*math),
        ensures
            r == self.log_pdf_of(oracle(*math), x),
    {
        let lo = self.edges[0];
        let hi = self.edges[self.edges.len() - 1];
        if x < lo || x > hi {
            return minus_infinity();
        }
        let i: usize = ((x - lo) / self.bin_width).index();
        let at: usize = if i < self.densities.len() {
            i
        } else {
            self.densities.len() - 1
        };
        ln(math, self.densities[at])
    }

    /// The piecewise linear distribution function.
    pub fn cdf(&self, x: Real) -> (r: Real)
        requires
            self.wf(),
        ensures
            r == discrete_cdf_of(self.edges@, self.probs@, self.bin_width, x),
    {
        discrete_cdf(&self.edges, &self.probs, self.bin_width, x)
    }

    /// The value at risk: interpolated within the bin where the probabilities
    /// reach the tail, or the last edge.
    pub open spec fn var_of(&self, alpha: Real) -> Real {
        let target = Real::whole(1) - alpha;
        let r = reach(self.probs@, target, self.probs@.len());
        match r.at {
            Some(i) => {
                let p = self.probs@[i];
                let frac = if p > Real::ratio(1, 1_000_000_000_000_000) {
                    (target - r.before) / p
                } else {
                    Real::ratio(1, 2)
                };
                self.edges@[i] + frac * self.bin_width
            },
            None => self.edges@.last(),
        }
    }

    /// The value at risk at confidence `alpha`.
    pub fn var(&self, alpha: Real) -> (r: Real)
        requires
            self.wf(),
        ensures
            r == self.var_of(alpha),
    {
        let target = Real::whole(1) - alpha;
        let mut before = Real::whole(0);
        let mut n: usize = 0;
        while n < self.probs.len()
            invariant
                self.wf(),
                n <= self.probs@.len(),
                target == Real::whole(1) - alpha,
                reach(self.probs@, target, n as nat) == (Reach { before, at: None }),
            decreases self.probs@.len() - n,
        {
            let p = self.probs[n];
            let next = before + p;
            if next >= target {
                proof {
                    lemma_reached(self.probs@, target, (n + 1) as nat, self.probs@.len());
                }
                let frac = if p > Real::ratio(1, 1_000_000_000_000_000) {
                    (target - before) / p
                } else {
                    Real::ratio(1, 2)
                };
                return self.edges[n] + frac * self.bin_width;
            }
            before = next;
            n += 1;
        }
        self.edges[self.edges.len() - 1]
    }

    /// The expected shortfall: the mean of the midpoints below the value at risk,
    /// or the value at risk where nothing lies below.
    pub open spec fn cvar_of(&self, alpha: Real) -> Real {
        let q = self.var_of(alpha);
        let (weighted, prob) = below(
            self.edges@,
            self.probs@,
            self.bin_width,
            q,
            self.probs@.len(),
        );
        if prob < Real::ratio(1, 1_000_000_000_000_000) {
            q
        } else {
            weighted / prob
        }
    }

    /// The expected shortfall at confidence `alpha`.
    pub fn cvar(&self, alpha: Real) -> (r: Real)
        requires
            self.wf(),
        ensures
            r == self.cvar_of(alpha),
    {
        let q = self.var(alpha);
        let two = Real::whole(2);
        let mut weighted = Real::whole(0);
        let mut prob_sum = Real::whole(0);
        let mut n: usize = 0;
        while n < self.probs.len()
            invariant
                self.wf(),
                n <= self.probs@.len(),
                two == Real::whole(2),
                (weighted, prob_sum) == below(
                    self.edges@,
                    self.probs@,
                    self.bin_width,
                    q,
                    n as nat,
                ),
            decreases self.probs@.len() - n,
        {
            let left = self.edges[n];
            let right = self.edges[n + 1];
            let p = self.probs[n];
            if right <= q {
                weighted = weighted + p * (left + right) / two;
                prob_sum = prob_sum + p;
            } else if left < q {
                let frac = (q - left) / self.bin_width;
                weighted = weighted + p * frac * (left + q) / two;
                prob_sum = prob_sum + p * frac;
            }
            n += 1;
        }
        if prob_sum < Real::ratio(1, 1_000_000_000_000_000) {
            return q;
        }
        weighted / prob_sum
    }
}

} // verus!
