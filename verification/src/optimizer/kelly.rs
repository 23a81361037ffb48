//! Constrained fractional Kelly optimization, per asset and joint.
//!
//! The joint optimization sizes each asset, selects the best subset within the
//! budgets for legs and transaction costs, scales it down to the exposure
//! limits, and builds the legs. The multi-period variant finds each asset's
//! fraction by backward induction on a grid, with the distribution held
//! constant over the horizon.
use vstd::arithmetic::div_mod::{lemma_div_by_multiple, lemma_div_is_ordered};
use vstd::arithmetic::power2::{lemma_pow2_pos, pow2};
use vstd::prelude::*;

use crate::ensemble::EnsembleDistribution;
use crate::num::constants::minus_infinity;
use crate::num::model::mag_units;
use crate::num::order::{lemma_count, lemma_whole, lemma_whole_order};
use crate::num::series::{
    argmax, last_max, stable_order, stable_order_of, sum, sum_of_seq, tally,
};
use crate::num::Real;
use crate::optimizer::subsets::{
    ascending_in, copy_places, enumerate_combinations, subsets, subsets_are_ascending,
    subsets_are_complete, views,
};
use crate::optimizer::types::{
    any_leg_sized, any_sized, leg_worth_sizing, worth_sizing, AssetDistribution, ComboConfig,
    ComboOrder, OrderLeg, PortfolioConstraints, PortfolioOptimizer, TradeDecision,
};
use crate::risk::manager::PortfolioState;
use crate::signals::generator::Direction;
use crate::text::same_text;

verus! {

/// The Kelly optimizer.
#[derive(Debug, Clone, Copy)]
pub struct KellyOptimizer;

/// One ten-thousandth, the fraction that a hundredth of a percent is.
pub open spec fn spec_bp() -> Real {
    Real::ratio(1, 10_000)
}

#[verifier::when_used_as_spec(spec_bp)]
pub fn bp() -> (r: Real)
    ensures
        r == spec_bp(),
{
    Real::ratio(1, 10_000)
}

/// The full Kelly fraction for a mean and a variance; zero where both vanish.
pub open spec fn full_kelly(mu: Real, sigma2: Real) -> Real {
    let denom = sigma2 + mu * mu;
    if denom > Real::ratio(1, 1_000_000_000_000_000) {
        mu / denom
    } else {
        Real::whole(0)
    }
}

/// The best fraction for a mean and a variance: fractional Kelly, less a turnover
/// penalty at a cost of `tc_bps`, within the position limit.
pub open spec fn fraction_at(
    mu: Real,
    sigma2: Real,
    current: Real,
    tc_bps: Real,
    c: PortfolioConstraints,
) -> Real {
    let k = c.kelly_fraction * full_kelly(mu, sigma2);
    (k - c.turnover_penalty * (k - current).signum() * (tc_bps * bp())).clamp(
        c.max_position_fraction.neg(),
        c.max_position_fraction,
    )
}

/// The best fraction for the distribution of one asset.
pub open spec fn best_fraction(
    dist: EnsembleDistribution,
    current: Real,
    tc_bps: Real,
    c: PortfolioConstraints,
) -> Real {
    fraction_at(dist.predictive_mean, dist.predictive_variance(), current, tc_bps, c)
}

/// Expected log growth per bar of a fraction, to second order.
pub open spec fn log_growth(dist: EnsembleDistribution, f: Real) -> Real {
    let mu = dist.predictive_mean;
    f * mu - Real::ratio(1, 2) * f * f * (dist.predictive_variance() + mu * mu)
}

fn growth(dist: &EnsembleDistribution, f: Real) -> (r: Real)
    ensures
        r == log_growth(*dist, f),
{
    let mu = dist.predictive_mean;
    f * mu - Real::ratio(1, 2) * f * f * (dist.predictive_variance() + mu * mu)
}

fn fraction_for(
    dist: &EnsembleDistribution,
    current: Real,
    tc_bps: Real,
    c: &PortfolioConstraints,
) -> (r: Real)
    requires
        c.bounds_positions(),
    ensures
        r == best_fraction(*dist, current, tc_bps, *c),
{
    let mu = dist.predictive_mean;
    let sigma2 = dist.predictive_variance();
    let denom = sigma2 + mu * mu;
    let kelly_full = if denom > Real::ratio(1, 1_000_000_000_000_000) {
        mu / denom
    } else {
        Real::whole(0)
    };
    let kelly_frac = c.kelly_fraction * kelly_full;
    let tc = tc_bps * bp();
    let tc_adj = kelly_frac - c.turnover_penalty * (kelly_frac - current).signum() * tc;
    tc_adj.clamp(c.max_position_fraction.neg(), c.max_position_fraction)
}

/// Number of points of the position grid.
pub const GRID: usize = 41;

/// The grid point `i`: from the largest short to the largest long position.
pub open spec fn grid_point(fmax: Real, i: int) -> Real {
    fmax.neg() + Real::whole(2) * fmax * Real::count(i as usize) / Real::count(40)
}

/// The position grid.
pub open spec fn grid_of(fmax: Real) -> Seq<Real> {
    Seq::new(GRID as nat, |i: int| grid_point(fmax, i))
}

/// The value of one period's growth at `to`, less the turnover penalty from
/// `from`, plus what follows.
pub open spec fn step_value(
    dist: EnsembleDistribution,
    c: PortfolioConstraints,
    from: Real,
    to: Real,
    next: Real,
) -> Real {
    log_growth(dist, to) - c.turnover_penalty * (to - from).abs() + next
}

/// The values of holding each grid point in the last period.
pub open spec fn last_values(dist: EnsembleDistribution, c: PortfolioConstraints) -> Seq<Real> {
    Seq::new(
        GRID as nat,
        |i: int|
            {
                let from = grid_point(c.max_position_fraction, i);
                let to = best_fraction(dist, from, c.transaction_cost_bps, c);
                log_growth(dist, to) - c.turnover_penalty * (to - from).abs()
            },
    )
}

/// The best value of moving from `from` to one of the first `n` grid points.
pub open spec fn best_step(
    dist: EnsembleDistribution,
    c: PortfolioConstraints,
    from: Real,
    next: Seq<Real>,
    n: nat,
) -> Real
    decreases n,
{
    if n == 0 {
        minus_infinity()
    } else {
        best_step(dist, c, from, next, (n - 1) as nat).max(
            step_value(dist, c, from, grid_point(c.max_position_fraction, n - 1), next[n - 1]),
        )
    }
}

/// The values of holding each grid point, `stages` periods before the last.
pub open spec fn stage_values(
    dist: EnsembleDistribution,
    c: PortfolioConstraints,
    stages: nat,
) -> Seq<Real>
    decreases stages,
{
    if stages == 0 {
        last_values(dist, c)
    } else {
        let next = stage_values(dist, c, (stages - 1) as nat);
        Seq::new(
            GRID as nat,
            |i: int|
                best_step(dist, c, grid_point(c.max_position_fraction, i), next, GRID as nat),
        )
    }
}

/// The place of the grid point nearest to a fraction.
pub open spec fn nearest_point(current: Real, fmax: Real) -> usize {
    ((current + fmax) / (Real::whole(2) * fmax) * Real::count(40)).round().clamp(
        Real::count(0),
        Real::count(40),
    ).index()
}

/// The fraction to move to now: the last of the grid points with the best value.
pub open spec fn dp_fraction(
    dist: EnsembleDistribution,
    current: Real,
    c: PortfolioConstraints,
    horizon: nat,
) -> Real {
    if horizon <= 1 {
        best_fraction(dist, current, c.transaction_cost_bps, c)
    } else {
        let fmax = c.max_position_fraction;
        let values = stage_values(dist, c, (horizon - 1) as nat);
        let from = grid_point(fmax, nearest_point(current, fmax) as int);
        let totals = Seq::new(
            GRID as nat,
            |i: int| step_value(dist, c, from, grid_point(fmax, i), values[i]),
        );
        grid_point(fmax, last_max(totals))
    }
}

/// A candidate for the joint order.
#[derive(Debug, Clone, Copy)]
pub struct AssetCandidate {
    /// Place of the asset in the list of distributions.
    pub place: usize,
    /// Best signed fraction.
    pub f: Real,
    /// Expected log growth at that fraction.
    pub elg: Real,
    /// Transaction cost of moving there, in hundredths of a percent.
    pub tc_bps: Real,
}

impl AssetCandidate {
    pub open spec fn spec_net_score(&self) -> Real {
        self.elg - self.tc_bps * bp()
    }

    /// Expected log growth less the transaction cost.
    #[verifier::when_used_as_spec(spec_net_score)]
    pub fn net_score(&self) -> (r: Real)
        ensures
            r == self.spec_net_score(),
    {
        self.elg - self.tc_bps * bp()
    }
}

/// The candidate that the distribution at a place makes, if it makes one: the
/// ensemble must be confident and have a direction, and the position and its
/// growth must not be negligible.
pub open spec fn candidate_at(
    dists: Seq<AssetDistribution>,
    i: int,
    c: PortfolioConstraints,
    min_leg_elg: Real,
) -> Option<AssetCandidate> {
    let ad = dists[i];
    let f = best_fraction(ad.ensemble, ad.current_fraction, ad.estimated_tc_bps, c);
    let elg = log_growth(ad.ensemble, f);
    if !(ad.ensemble.is_confident() && ad.ensemble.confidence >= c.min_confidence
        && ad.ensemble.directional_edge().abs() >= Real::ratio(5, 100)) {
        None
    } else if f.abs() < Real::ratio(1, 10_000) || elg < min_leg_elg {
        None
    } else {
        Some(
            AssetCandidate {
                place: i as usize,
                f,
                elg,
                tc_bps: (f - ad.current_fraction).abs() * ad.estimated_tc_bps,
            },
        )
    }
}

/// The candidates among the first `n` distributions, in order.
pub open spec fn candidates_of(
    dists: Seq<AssetDistribution>,
    n: nat,
    c: PortfolioConstraints,
    min_leg_elg: Real,
) -> Seq<AssetCandidate>
    decreases n,
{
    if n == 0 {
        Seq::empty()
    } else {
        let before = candidates_of(dists, (n - 1) as nat, c, min_leg_elg);
        match candidate_at(dists, n - 1, c, min_leg_elg) {
            Some(x) => before.push(x),
            None => before,
        }
    }
}

/// The total transaction cost of a subset.
pub open spec fn total_cost(cands: Seq<AssetCandidate>, set: Seq<usize>) -> Real {
    sum_of_seq(set.map_values(|i: usize| cands[i as int].tc_bps))
}

/// The total net score of a subset.
pub open spec fn total_score(cands: Seq<AssetCandidate>, set: Seq<usize>) -> Real {
    sum_of_seq(set.map_values(|i: usize| cands[i as int].net_score()))
}

/// A subset with its score.
pub struct Scored {
    pub score: Real,
    pub set: Seq<usize>,
}

/// The better of a scored subset and another subset within the cost budget.
pub open spec fn better(
    cands: Seq<AssetCandidate>,
    best: Scored,
    set: Seq<usize>,
    max_tc: Real,
) -> Scored {
    if total_cost(cands, set) > max_tc || !(total_score(cands, set) > best.score) {
        best
    } else {
        Scored { score: total_score(cands, set), set }
    }
}

/// The first of the best of a list of subsets within the cost budget.
pub open spec fn best_of(
    cands: Seq<AssetCandidate>,
    from: Scored,
    sets: Seq<Seq<usize>>,
    max_tc: Real,
) -> Scored
    decreases sets.len(),
{
    if sets.len() == 0 {
        from
    } else {
        better(cands, best_of(cands, from, sets.drop_last(), max_tc), sets.last(), max_tc)
    }
}

/// The best subset of one to `max_k` candidates within the cost budget, and its
/// score; empty, with a score below all, if there is none.
pub open spec fn best_up_to(cands: Seq<AssetCandidate>, max_k: nat, max_tc: Real) -> Scored
    decreases max_k,
{
    if max_k == 0 {
        Scored { score: minus_infinity(), set: Seq::empty() }
    } else {
        best_of(
            cands,
            best_up_to(cands, (max_k - 1) as nat, max_tc),
            subsets(0, cands.len(), max_k),
            max_tc,
        )
    }
}

/// A subset selected within the cost budget: ascending candidates, at most
/// `max_k` of them.
pub open spec fn feasible(
    cands: Seq<AssetCandidate>,
    set: Seq<usize>,
    max_k: nat,
    max_tc: Real,
) -> bool {
    &&& 1 <= set.len() <= max_k
    &&& forall|i: int| 0 <= i < set.len() ==> (#[trigger] set[i]) < cands.len()
    &&& forall|i: int, j: int| 0 <= i < j < set.len() ==> #[trigger] set[i] < #[trigger] set[j]
    &&& !(total_cost(cands, set) > max_tc)
}

proof fn lemma_best_of(
    cands: Seq<AssetCandidate>,
    from: Scored,
    sets: Seq<Seq<usize>>,
    max_tc: Real,
)
    requires
        !from.score.nan(),
    ensures
        ({
            let r = best_of(cands, from, sets, max_tc);
            &&& !r.score.nan()
            &&& from.score <= r.score
            &&& r == from || (exists|i: int|
                0 <= i < sets.len() && #[trigger] sets[i] == r.set && r.score == total_score(
                    cands,
                    r.set,
                ) && !(total_cost(cands, r.set) > max_tc))
            &&& forall|i: int|
                0 <= i < sets.len() && !(total_cost(cands, #[trigger] sets[i]) > max_tc) ==> !(
                total_score(cands, sets[i]) > r.score)
        }),
    decreases sets.len(),
{
    if sets.len() > 0 {
        let t = sets.drop_last();
        lemma_best_of(cands, from, t, max_tc);
        let b = best_of(cands, from, t, max_tc);
        let r = best_of(cands, from, sets, max_tc);
        if r != b {
            assert(sets[sets.len() - 1] == r.set);
        } else if b != from {
            let i = choose|i: int|
                0 <= i < t.len() && #[trigger] t[i] == b.set && b.score == total_score(
                    cands,
                    b.set,
                ) && !(total_cost(cands, b.set) > max_tc);
            assert(sets[i] == r.set);
        }
        assert forall|i: int|
            0 <= i < sets.len() && !(total_cost(cands, #[trigger] sets[i]) > max_tc) implies !(
        total_score(cands, sets[i]) > r.score) by {
            if i < t.len() {
                assert(t[i] == sets[i]);
            }
        }
    }
}

/// The exhaustive search finds a global optimum: no subset of at most `max_k`
/// candidates within the cost budget scores higher than the one selected, and
/// the one selected is itself within the budget.
pub proof fn exhaustive_search_is_optimal(
    cands: Seq<AssetCandidate>,
    max_k: nat,
    max_tc: Real,
    set: Seq<usize>,
)
    requires
        cands.len() <= usize::MAX,
    ensures
        ({
            let r = best_up_to(cands, max_k, max_tc);
            &&& feasible(cands, set, max_k, max_tc) ==> !(total_score(cands, set) > r.score)
            &&& r.set.len() > 0 ==> feasible(cands, r.set, max_k, max_tc) && r.score
                == total_score(cands, r.set)
            &&& r.set.len() == 0 ==> r.score == minus_infinity()
            &&& !r.score.nan()
        }),
    decreases max_k,
{
    let n = cands.len();
    let r = best_up_to(cands, max_k, max_tc);
    if max_k > 0 {
        let m = (max_k - 1) as nat;
        exhaustive_search_is_optimal(cands, m, max_tc, set);
        let from = best_up_to(cands, m, max_tc);
        let sets = subsets(0, n, max_k);
        lemma_best_of(cands, from, sets, max_tc);
        subsets_are_ascending(0, n, max_k);
        if r != from {
            let i = choose|i: int|
                0 <= i < sets.len() && #[trigger] sets[i] == r.set && r.score == total_score(
                    cands,
                    r.set,
                ) && !(total_cost(cands, r.set) > max_tc);
            assert(ascending_in(sets[i], 0, n, max_k));
        }
        if feasible(cands, set, max_k, max_tc) {
            if set.len() == max_k {
                assert(ascending_in(set, 0, n, max_k));
                let at = subsets_are_complete(0, n, max_k, set);
                assert(sets[at] == set);
            } else {
                assert(feasible(cands, set, m, max_tc));
            }
        }
    }
}

/// The subset that greedy selection takes from the first `n` ranked candidates,
/// with its cost: each is taken unless it would exceed the budget.
pub open spec fn greedy_of(
    cands: Seq<AssetCandidate>,
    ranked: Seq<usize>,
    n: nat,
    max_tc: Real,
) -> (Real, Seq<usize>)
    decreases n,
{
    if n == 0 {
        (Real::whole(0), Seq::empty())
    } else {
        let (cost, set) = greedy_of(cands, ranked, (n - 1) as nat, max_tc);
        let next = cost + cands[ranked[n - 1] as int].tc_bps;
        if next > max_tc {
            (cost, set)
        } else {
            (next, set.push(ranked[n - 1]))
        }
    }
}

/// The candidates by descending net score; equal ones keep their order.
pub open spec fn ranking(cands: Seq<AssetCandidate>) -> Seq<usize> {
    stable_order_of(cands.map_values(|x: AssetCandidate| x.net_score().neg()), cands.len())
}

/// The subset that is selected: by exhaustive search among at most ten
/// candidates where that is wanted, greedily otherwise.
pub open spec fn selection(cands: Seq<AssetCandidate>, cfg: ComboConfig) -> Seq<usize> {
    let k = if cfg.max_assets <= cands.len() {
        cfg.max_assets as nat
    } else {
        cands.len()
    };
    if cfg.enumerate_subsets && cands.len() <= 10 {
        best_up_to(cands, k, cfg.max_total_tc_bps).set
    } else {
        greedy_of(cands, ranking(cands), k, cfg.max_total_tc_bps).1
    }
}

/// The candidate changes the position held.
pub open spec fn is_traded(cands: Seq<AssetCandidate>, dists: Seq<AssetDistribution>, i: usize) -> bool {
    let x = cands[i as int];
    (x.f - dists[x.place as int].current_fraction).abs() > Real::ratio(1, 10_000)
}

/// The first `n` of a selection without those that trade once `limit` do, and
/// how many trade.
pub open spec fn trimmed_of(
    cands: Seq<AssetCandidate>,
    dists: Seq<AssetDistribution>,
    set: Seq<usize>,
    n: nat,
    limit: nat,
) -> (nat, Seq<usize>)
    decreases n,
{
    if n == 0 {
        (0, Seq::empty())
    } else {
        let (count, kept) = trimmed_of(cands, dists, set, (n - 1) as nat, limit);
        let i = set[n - 1];
        if !is_traded(cands, dists, i) {
            (count, kept.push(i))
        } else if count >= limit {
            (count, kept)
        } else {
            (count + 1, kept.push(i))
        }
    }
}

/// The factor that brings fractions to the exposure limits.
pub open spec fn exposure_scale(fractions: Seq<Real>, c: PortfolioConstraints) -> Real {
    let gross = sum_of_seq(fractions.map_values(|f: Real| f.abs()));
    let net = sum_of_seq(fractions).abs();
    let by_gross = if gross > c.max_gross_exposure {
        c.max_gross_exposure / gross
    } else {
        Real::whole(1)
    };
    let by_net = if net > c.max_net_exposure {
        c.max_net_exposure / net
    } else {
        Real::whole(1)
    };
    by_gross.min(by_net)
}

/// Least ratio of target to stop distance for a regime.
pub open spec fn spec_regime_min_rr(regime: Seq<char>) -> Real {
    if regime == "high_vol"@ {
        Real::whole(3)
    } else if regime == "trending"@ {
        Real::whole(2)
    } else {
        Real::ratio(3, 2)
    }
}

fn regime_min_rr(regime: &str) -> (r: Real)
    ensures
        r == spec_regime_min_rr(regime@),
{
    if same_text(regime, "high_vol") {
        Real::whole(3)
    } else if same_text(regime, "trending") {
        Real::whole(2)
    } else {
        Real::ratio(3, 2)
    }
}

/// The direction of a signed fraction.
pub open spec fn direction_of(f: Real) -> Direction {
    if f >= Real::whole(0) {
        Direction::Long
    } else {
        Direction::Short
    }
}

/// The leverage for a position fraction.
pub open spec fn leverage_for(fraction: Real, c: PortfolioConstraints) -> Real {
    (fraction * c.max_leverage).clamp(Real::whole(1), c.max_leverage)
}

/// Stop and target for an entry: the stop two standard deviations away, the
/// target by the regime's ratio. Without an entry price both are zero.
pub open spec fn exits_of(ad: AssetDistribution, direction: Direction) -> (Real, Real) {
    let entry = ad.entry_price;
    let stop = ad.stop_distance_fraction() * entry;
    let rr = spec_regime_min_rr(ad.ensemble.regime());
    if !(entry > Real::whole(0)) {
        (Real::whole(0), Real::whole(0))
    } else if direction == Direction::Long {
        (entry - stop, entry + stop * rr)
    } else {
        (entry + stop, entry - stop * rr)
    }
}

/// The leg that a candidate becomes.
pub open spec fn is_leg(
    leg: OrderLeg,
    x: AssetCandidate,
    ad: AssetDistribution,
    scale: Real,
    c: PortfolioConstraints,
    nav: Real,
) -> bool {
    let f = x.f * scale;
    let fraction = f.abs().min(c.max_position_fraction);
    let exits = exits_of(ad, direction_of(f));
    &&& leg.asset@ == ad.asset@
    &&& leg.direction == direction_of(f)
    &&& leg.position_fraction == fraction
    &&& leg.position_size_usd == nav * fraction
    &&& leg.leverage == leverage_for(fraction, c)
    &&& leg.entry_price == ad.entry_price
    &&& leg.stop_loss == exits.0
    &&& leg.take_profit == exits.1
    &&& leg.expected_log_growth == x.elg
    &&& leg.leg_tc_bps == x.tc_bps
    &&& leg.confidence == ad.ensemble.confidence
    &&& leg.regime_label@ == ad.ensemble.regime()
}

/// The candidates that become legs, in order.
pub open spec fn chosen(
    dists: Seq<AssetDistribution>,
    nav: Real,
    c: PortfolioConstraints,
    cfg: ComboConfig,
) -> Seq<AssetCandidate> {
    let cands = candidates_of(dists, dists.len(), c, cfg.min_leg_elg);
    let set = selection(cands, cfg);
    let kept = trimmed_of(cands, dists, set, set.len(), cfg.max_traded_assets as nat).1;
    if nav < Real::whole(1) {
        Seq::empty()
    } else {
        kept.map_values(|i: usize| cands[i as int])
    }
}

/// The fractions of the chosen candidates.
pub open spec fn fractions_of(cands: Seq<AssetCandidate>) -> Seq<Real> {
    cands.map_values(|x: AssetCandidate| x.f)
}

/// The fraction of a leg, negative for a short one.
pub open spec fn signed_fraction(leg: OrderLeg) -> Real {
    if leg.direction == Direction::Long {
        leg.position_fraction
    } else {
        leg.position_fraction.neg()
    }
}

/// The order holds one leg per chosen candidate, in order, and their totals.
pub open spec fn is_order(
    order: ComboOrder,
    dists: Seq<AssetDistribution>,
    nav: Real,
    c: PortfolioConstraints,
    cfg: ComboConfig,
) -> bool {
    let xs = chosen(dists, nav, c, cfg);
    let scale = exposure_scale(fractions_of(xs), c);
    &&& order.legs@.len() == xs.len()
    &&& forall|i: int|
        0 <= i < xs.len() ==> is_leg(
            #[trigger] order.legs@[i],
            xs[i],
            dists[xs[i].place as int],
            scale,
            c,
            nav,
        )
    &&& order.total_expected_log_growth == tally(xs.map_values(|x: AssetCandidate| x.elg))
    &&& order.total_tc_bps == tally(xs.map_values(|x: AssetCandidate| x.tc_bps))
    &&& order.gross_exposure_fraction == sum_of_seq(
        order.legs@.map_values(|l: OrderLeg| l.position_fraction),
    )
    &&& order.net_exposure_fraction == sum_of_seq(
        order.legs@.map_values(|l: OrderLeg| signed_fraction(l)),
    )
}


fn grid(fmax: Real) -> (r: Vec<Real>)
    ensures
        r@ == grid_of(fmax),
{
    let mut v: Vec<Real> = Vec::new();
    let mut i: usize = 0;
    while i < GRID
        invariant
            i <= GRID,
            v@ =~= grid_of(fmax).take(i as int),
        decreases GRID - i,
    {
        v.push(fmax.neg() + Real::whole(2) * fmax * Real::count(i) / Real::count(40));
        i += 1;
    }
    assert(v@ =~= grid_of(fmax));
    v
}

fn last_stage(
    dist: &EnsembleDistribution,
    c: &PortfolioConstraints,
    points: &Vec<Real>,
) -> (r: Vec<Real>)
    requires
        c.admissible(),
        points@ == grid_of(c.max_position_fraction),
    ensures
        r@ == last_values(*dist, *c),
{
    let mut v: Vec<Real> = Vec::new();
    let mut i: usize = 0;
    while i < GRID
        invariant
            i <= GRID,
            c.admissible(),
            points@ == grid_of(c.max_position_fraction),
            v@ =~= last_values(*dist, *c).take(i as int),
        decreases GRID - i,
    {
        let f = points[i];
        let f_opt = fraction_for(dist, f, c.transaction_cost_bps, c);
        v.push(growth(dist, f_opt) - c.turnover_penalty * (f_opt - f).abs());
        i += 1;
    }
    assert(v@ =~= last_values(*dist, *c));
    v
}

fn best_next(
    dist: &EnsembleDistribution,
    c: &PortfolioConstraints,
    points: &Vec<Real>,
    from: Real,
    next: &Vec<Real>,
) -> (r: Real)
    requires
        points@ == grid_of(c.max_position_fraction),
        next@.len() == GRID,
    ensures
        r == best_step(*dist, *c, from, next@, GRID as nat),
{
    let mut best = minus_infinity();
    let mut i: usize = 0;
    while i < GRID
        invariant
            i <= GRID,
            points@ == grid_of(c.max_position_fraction),
            next@.len() == GRID,
            best == best_step(*dist, *c, from, next@, i as nat),
        decreases GRID - i,
    {
        let to = points[i];
        best = best.max(growth(dist, to) - c.turnover_penalty * (to - from).abs() + next[i]);
        i += 1;
    }
    best
}

fn stages(
    dist: &EnsembleDistribution,
    c: &PortfolioConstraints,
    points: &Vec<Real>,
    n: usize,
) -> (r: Vec<Real>)
    requires
        c.admissible(),
        points@ == grid_of(c.max_position_fraction),
    ensures
        r@ == stage_values(*dist, *c, n as nat),
        r@.len() == GRID,
{
    let mut next = last_stage(dist, c, points);
    let mut k: usize = 0;
    while k < n
        invariant
            k <= n,
            points@ == grid_of(c.max_position_fraction),
            next@ == stage_values(*dist, *c, k as nat),
            next@.len() == GRID,
        decreases n - k,
    {
        let mut cur: Vec<Real> = Vec::new();
        let ghost goal = stage_values(*dist, *c, (k + 1) as nat);
        let mut i: usize = 0;
        while i < GRID
            invariant
                i <= GRID,
                points@ == grid_of(c.max_position_fraction),
                next@ == stage_values(*dist, *c, k as nat),
                next@.len() == GRID,
                goal == stage_values(*dist, *c, (k + 1) as nat),
                cur@ =~= goal.take(i as int),
            decreases GRID - i,
        {
            cur.push(best_next(dist, c, points, points[i], &next));
            i += 1;
        }
        assert(cur@ =~= goal);
        next = cur;
        k += 1;
    }
    next
}

fn score_of(cands: &Vec<AssetCandidate>, set: &Vec<usize>) -> (r: (Real, Real))
    requires
        forall|i: int| 0 <= i < set@.len() ==> (#[trigger] set@[i]) < cands@.len(),
    ensures
        r.0 == total_cost(cands@, set@),
        r.1 == total_score(cands@, set@),
{
    let mut costs: Vec<Real> = Vec::new();
    let mut scores: Vec<Real> = Vec::new();
    let ghost all_costs = set@.map_values(|i: usize| cands@[i as int].tc_bps);
    let ghost all_scores = set@.map_values(|i: usize| cands@[i as int].net_score());
    let mut i: usize = 0;
    while i < set.len()
        invariant
            i <= set@.len(),
            forall|i: int| 0 <= i < set@.len() ==> (#[trigger] set@[i]) < cands@.len(),
            all_costs == set@.map_values(|i: usize| cands@[i as int].tc_bps),
            all_scores == set@.map_values(|i: usize| cands@[i as int].net_score()),
            costs@ =~= all_costs.take(i as int),
            scores@ =~= all_scores.take(i as int),
        decreases set@.len() - i,
    {
        costs.push(cands[set[i]].tc_bps);
        scores.push(cands[set[i]].net_score());
        i += 1;
    }
    assert(costs@ =~= all_costs);
    assert(scores@ =~= all_scores);
    (sum(costs.as_slice()), sum(scores.as_slice()))
}

fn exposure_factor(fractions: &Vec<Real>, c: &PortfolioConstraints) -> (r: Real)
    ensures
        r == exposure_scale(fractions@, *c),
{
    let mut sizes: Vec<Real> = Vec::new();
    let ghost all = fractions@.map_values(|f: Real| f.abs());
    let mut i: usize = 0;
    while i < fractions.len()
        invariant
            i <= fractions@.len(),
            all == fractions@.map_values(|f: Real| f.abs()),
            sizes@ =~= all.take(i as int),
        decreases fractions@.len() - i,
    {
        sizes.push(fractions[i].abs());
        i += 1;
    }
    assert(sizes@ =~= all);
    let gross_sum = sum(sizes.as_slice());
    let net_sum = sum(fractions.as_slice());
    let scale_gross = if gross_sum > c.max_gross_exposure {
        c.max_gross_exposure / gross_sum
    } else {
        Real::whole(1)
    };
    let scale_net = if net_sum.abs() > c.max_net_exposure {
        c.max_net_exposure / net_sum.abs()
    } else {
        Real::whole(1)
    };
    scale_gross.min(scale_net)
}

fn candidate(
    dists: &[AssetDistribution],
    i: usize,
    c: &PortfolioConstraints,
    min_leg_elg: Real,
) -> (r: Option<AssetCandidate>)
    requires
        i < dists@.len(),
        leg_worth_sizing(dists@[i as int], *c) ==> c.admissible(),
    ensures
        r == candidate_at(dists@, i as int, *c, min_leg_elg),
{
    let ad = &dists[i];
    if !(ad.ensemble.is_confident() && ad.ensemble.confidence >= c.min_confidence
        && ad.ensemble.directional_edge().abs() >= Real::ratio(5, 100)) {
        return None;
    }
    let (f, elg) = KellyOptimizer::optimize_single_dist(ad, c);
    if f.abs() < Real::ratio(1, 10_000) {
        return None;
    }
    if elg < min_leg_elg {
        return None;
    }
    let turnover = (f - ad.current_fraction).abs();
    Some(AssetCandidate { place: i, f, elg, tc_bps: turnover * ad.estimated_tc_bps })
}

fn candidates(
    dists: &[AssetDistribution],
    c: &PortfolioConstraints,
    min_leg_elg: Real,
) -> (r: Vec<AssetCandidate>)
    requires
        forall|i: int|
            0 <= i < dists@.len() && leg_worth_sizing(#[trigger] dists@[i], *c) ==> c.admissible(),
    ensures
        r@ == candidates_of(dists@, dists@.len(), *c, min_leg_elg),
        forall|i: int| 0 <= i < r@.len() ==> (#[trigger] r@[i]).place < dists@.len(),
        r@.len() > 0 ==> c.admissible(),
{
    let mut out: Vec<AssetCandidate> = Vec::new();
    let mut n: usize = 0;
    while n < dists.len()
        invariant
            n <= dists@.len(),
            forall|i: int|
                0 <= i < dists@.len() && leg_worth_sizing(#[trigger] dists@[i], *c)
                    ==> c.admissible(),
            out@.len() > 0 ==> c.admissible(),
            out@ == candidates_of(dists@, n as nat, *c, min_leg_elg),
            forall|i: int| 0 <= i < out@.len() ==> (#[trigger] out@[i]).place < dists@.len(),
        decreases dists@.len() - n,
    {
        assert(leg_worth_sizing(dists@[n as int], *c) ==> c.admissible());
        if let Some(x) = candidate(dists, n, c, min_leg_elg) {
            out.push(x);
        }
        n += 1;
    }
    out
}

fn build_leg(
    x: &AssetCandidate,
    ad: &AssetDistribution,
    scale: Real,
    c: &PortfolioConstraints,
    nav: Real,
) -> (r: OrderLeg)
    requires
        c.admissible(),
    ensures
        is_leg(r, *x, *ad, scale, *c, nav),
{
    let f_scaled = x.f * scale;
    let direction = if f_scaled >= Real::whole(0) {
        Direction::Long
    } else {
        Direction::Short
    };
    let fraction = f_scaled.abs().min(c.max_position_fraction);
    let leverage = (fraction * c.max_leverage).clamp(Real::whole(1), c.max_leverage);
    let entry = ad.entry_price;
    let (stop_loss, take_profit) = if entry > Real::whole(0) {
        let stop_dist = ad.stop_distance_fraction() * entry;
        let min_rr = regime_min_rr(ad.regime_label());
        match direction {
            Direction::Long => (entry - stop_dist, entry + stop_dist * min_rr),
            Direction::Short => (entry + stop_dist, entry - stop_dist * min_rr),
        }
    } else {
        (Real::whole(0), Real::whole(0))
    };
    OrderLeg {
        asset: ad.asset.clone(),
        direction,
        position_fraction: fraction,
        position_size_usd: nav * fraction,
        leverage,
        entry_price: entry,
        stop_loss,
        take_profit,
        expected_log_growth: x.elg,
        leg_tc_bps: x.tc_bps,
        confidence: ad.ensemble.confidence,
        regime_label: ad.regime_label().to_owned(),
    }
}

fn trim(
    cands: &Vec<AssetCandidate>,
    dists: &[AssetDistribution],
    set: &Vec<usize>,
    limit: usize,
) -> (r: Vec<usize>)
    requires
        forall|i: int| 0 <= i < set@.len() ==> (#[trigger] set@[i]) < cands@.len(),
        forall|i: int| 0 <= i < cands@.len() ==> (#[trigger] cands@[i]).place < dists@.len(),
    ensures
        r@ == trimmed_of(cands@, dists@, set@, set@.len(), limit as nat).1,
        forall|i: int| 0 <= i < r@.len() ==> (#[trigger] r@[i]) < cands@.len(),
{
    let mut kept: Vec<usize> = Vec::new();
    let mut count: usize = 0;
    let mut n: usize = 0;
    while n < set.len()
        invariant
            n <= set@.len(),
            count <= n,
            forall|i: int| 0 <= i < set@.len() ==> (#[trigger] set@[i]) < cands@.len(),
            forall|i: int| 0 <= i < cands@.len() ==> (#[trigger] cands@[i]).place < dists@.len(),
            (count as nat, kept@) == trimmed_of(cands@, dists@, set@, n as nat, limit as nat),
            forall|i: int| 0 <= i < kept@.len() ==> (#[trigger] kept@[i]) < cands@.len(),
        decreases set@.len() - n,
    {
        let i: usize = set[n];
        let x = cands[i];
        let traded = (x.f - dists[x.place].current_fraction).abs() > Real::ratio(1, 10_000);
        if !traded {
            kept.push(i);
        } else if count < limit {
            count += 1;
            kept.push(i);
        }
        n += 1;
    }
    kept
}

impl KellyOptimizer {
    pub fn new() -> (r: Self) {
        KellyOptimizer
    }

    /// The best fraction for one asset and its expected log growth, at the
    /// asset's own transaction cost.
    pub fn optimize_single_dist(
        ad: &AssetDistribution,
        constraints: &PortfolioConstraints,
    ) -> (r: (Real, Real))
        requires
            constraints.bounds_positions(),
        ensures
            r.0 == best_fraction(
                ad.ensemble,
                ad.current_fraction,
                ad.estimated_tc_bps,
                *constraints,
            ),
            r.1 == log_growth(ad.ensemble, r.0),
    {
        let f = fraction_for(
            &ad.ensemble,
            ad.current_fraction,
            ad.estimated_tc_bps,
            constraints,
        );
        (f, growth(&ad.ensemble, f))
    }

    /// The best fraction for a distribution and its expected log growth, at the
    /// portfolio's transaction cost.
    pub fn optimize_single(
        dist: &EnsembleDistribution,
        current_fraction: Real,
        constraints: &PortfolioConstraints,
    ) -> (r: (Real, Real))
        requires
            constraints.bounds_positions(),
        ensures
            r.0 == best_fraction(
                *dist,
                current_fraction,
                constraints.transaction_cost_bps,
                *constraints,
            ),
            r.1 == log_growth(*dist, r.0),
    {
        let f = fraction_for(
            dist,
            current_fraction,
            constraints.transaction_cost_bps,
            constraints,
        );
        (f, growth(dist, f))
    }

    /// The fraction to hold now when `horizon` periods are ahead, found by
    /// backward induction on the position grid.
    pub fn dp_optimal_fraction(
        dist: &EnsembleDistribution,
        current_fraction: Real,
        constraints: &PortfolioConstraints,
        horizon: usize,
    ) -> (r: Real)
        requires
            constraints.admissible(),
        ensures
            r == dp_fraction(*dist, current_fraction, *constraints, horizon as nat),
    {
        if horizon <= 1 {
            return fraction_for(
                dist,
                current_fraction,
                constraints.transaction_cost_bps,
                constraints,
            );
        }
        let fmax = constraints.max_position_fraction;
        let points = grid(fmax);
        let values = stages(dist, constraints, &points, horizon - 1);
        proof {
            lemma_count(0);
            lemma_count(40);
            lemma_whole_order(0, 40);
        }
        let x = ((current_fraction + fmax) / (Real::whole(2) * fmax) * Real::count(40)).round();
        let current_idx: usize = x.clamp(Real::count(0), Real::count(40)).index();
        proof {
            lemma_index_below(x, 40);
        }
        let from = points[current_idx];
        let ghost goal = Seq::new(
            GRID as nat,
            |i: int| step_value(*dist, *constraints, from, grid_point(fmax, i), values@[i]),
        );
        let mut totals: Vec<Real> = Vec::new();
        let mut i: usize = 0;
        while i < GRID
            invariant
                i <= GRID,
                points@ == grid_of(fmax),
                fmax == constraints.max_position_fraction,
                values@.len() == GRID,
                goal == Seq::new(
                    GRID as nat,
                    |i: int| step_value(*dist, *constraints, from, grid_point(fmax, i), values@[i]),
                ),
                totals@ =~= goal.take(i as int),
            decreases GRID - i,
        {
            let to = points[i];
            totals.push(
                growth(dist, to) - constraints.turnover_penalty * (to - from).abs() + values[i],
            );
            i += 1;
        }
        assert(totals@ =~= goal);
        let best: usize = argmax(totals.as_slice());
        points[best]
    }

    /// The best subset of one to `max_k` candidates within the cost budget, found
    /// by trying all.
    pub fn best_subset_exhaustive(
        candidates: &Vec<AssetCandidate>,
        max_k: usize,
        max_tc_bps: Real,
    ) -> (r: Vec<usize>)
        ensures
            r@ == best_up_to(candidates@, max_k as nat, max_tc_bps).set,
            forall|i: int| 0 <= i < r@.len() ==> (#[trigger] r@[i]) < candidates@.len(),
    {
        let n: usize = candidates.len();
        let mut best_score = minus_infinity();
        let mut best_set: Vec<usize> = Vec::new();
        let mut k: usize = 0;
        assert(best_set@ =~= Seq::empty());
        while k < max_k
            invariant
                k <= max_k,
                n == candidates@.len(),
                (Scored { score: best_score, set: best_set@ }) == best_up_to(
                    candidates@,
                    k as nat,
                    max_tc_bps,
                ),
                forall|i: int|
                    0 <= i < best_set@.len() ==> (#[trigger] best_set@[i]) < candidates@.len(),
            decreases max_k - k,
        {
            k += 1;
            let mut combos = enumerate_combinations(n, k);
            let ghost all = views(combos@);
            let ghost from = best_up_to(candidates@, (k - 1) as nat, max_tc_bps);
            proof {
                subsets_are_ascending(0, n as nat, k as nat);
            }
            let mut j: usize = 0;
            assert(all.take(0) =~= Seq::empty());
            while j < combos.len()
                invariant
                    j <= combos@.len(),
                    n == candidates@.len(),
                    all == views(combos@),
                    all == subsets(0, n as nat, k as nat),
                    forall|i: int|
                        0 <= i < all.len() ==> ascending_in(
                            #[trigger] all[i],
                            0,
                            n as nat,
                            k as nat,
                        ),
                    (Scored { score: best_score, set: best_set@ }) == best_of(
                        candidates@,
                        from,
                        all.take(j as int),
                        max_tc_bps,
                    ),
                    forall|i: int|
                        0 <= i < best_set@.len() ==> (#[trigger] best_set@[i]) < candidates@.len(),
                decreases combos@.len() - j,
            {
                let combo = &combos[j];
                assert(all[j as int] == combo@);
                assert(ascending_in(all[j as int], 0, n as nat, k as nat));
                let (total_tc, score) = score_of(candidates, combo);
                assert(all.take(j + 1).drop_last() =~= all.take(j as int));
                assert(all.take(j + 1).last() == combo@);
                if !(total_tc > max_tc_bps) && score > best_score {
                    best_score = score;
                    best_set = copy_places(combo);
                }
                j += 1;
            }
            assert(all.take(j as int) =~= all);
        }
        best_set
    }

    /// The candidates that fit the cost budget, among the `max_k` with the best
    /// net scores.
    pub fn greedy_select(
        candidates: &Vec<AssetCandidate>,
        max_k: usize,
        max_tc_bps: Real,
    ) -> (r: Vec<usize>)
        ensures
            ({
                let k = if max_k <= candidates@.len() {
                    max_k as nat
                } else {
                    candidates@.len()
                };
                r@ == greedy_of(candidates@, ranking(candidates@), k, max_tc_bps).1
            }),
            forall|i: int| 0 <= i < r@.len() ==> (#[trigger] r@[i]) < candidates@.len(),
    {
        let mut keys: Vec<Real> = Vec::new();
        let ghost all = candidates@.map_values(|x: AssetCandidate| x.net_score().neg());
        let mut i: usize = 0;
        while i < candidates.len()
            invariant
                i <= candidates@.len(),
                all == candidates@.map_values(|x: AssetCandidate| x.net_score().neg()),
                keys@ =~= all.take(i as int),
            decreases candidates@.len() - i,
        {
            keys.push(candidates[i].net_score().neg());
            i += 1;
        }
        assert(keys@ =~= all);
        let ranked = stable_order(keys.as_slice());
        let mut selected: Vec<usize> = Vec::new();
        let mut cumulative_tc = Real::whole(0);
        let mut n: usize = 0;
        assert(selected@ =~= Seq::empty());
        while n < max_k && n < ranked.len()
            invariant
                n <= max_k,
                n <= ranked@.len(),
                ranked@.len() == candidates@.len(),
                ranked@ == ranking(candidates@),
                forall|i: int| 0 <= i < ranked@.len() ==> (#[trigger] ranked@[i]) < candidates@.len(),
                (cumulative_tc, selected@) == greedy_of(
                    candidates@,
                    ranked@,
                    n as nat,
                    max_tc_bps,
                ),
                forall|i: int|
                    0 <= i < selected@.len() ==> (#[trigger] selected@[i]) < candidates@.len(),
            decreases ranked@.len() - n,
        {
            let idx: usize = ranked[n];
            let next_tc = cumulative_tc + candidates[idx].tc_bps;
            if !(next_tc > max_tc_bps) {
                cumulative_tc = next_tc;
                selected.push(idx);
            }
            n += 1;
        }
        selected
    }

    /// The joint order, under a given identifier and time: nothing where no
    /// candidate is chosen.
    pub fn build_combo(
        &self,
        asset_dists: &[AssetDistribution],
        nav: Real,
        constraints: &PortfolioConstraints,
        combo_config: &ComboConfig,
        combo_id: String,
        now_ms: u64,
    ) -> (r: Option<ComboOrder>)
        requires
            any_leg_sized(asset_dists@, nav, *constraints) ==> constraints.admissible(),
        ensures
            r is None <==> chosen(asset_dists@, nav, *constraints, *combo_config).len() == 0,
            r matches Some(order) ==> is_order(
                order,
                asset_dists@,
                nav,
                *constraints,
                *combo_config,
            ) && order.combo_id == combo_id && order.generated_at_ms == now_ms,
    {
        if asset_dists.len() == 0 || nav < Real::whole(1) {
            proof {
                lemma_nothing_chosen(asset_dists@, nav, *constraints, *combo_config);
            }
            return None;
        }
        proof {
            assert forall|i: int|
                0 <= i < asset_dists@.len() && leg_worth_sizing(
                    #[trigger] asset_dists@[i],
                    *constraints,
                ) implies constraints.admissible() by {
                assert(any_leg_sized(asset_dists@, nav, *constraints));
            }
        }
        let cands = candidates(asset_dists, constraints, combo_config.min_leg_elg);
        let n: usize = cands.len();
        let k: usize = if combo_config.max_assets <= n {
            combo_config.max_assets
        } else {
            n
        };
        let max_tc = combo_config.max_total_tc_bps;
        let selected = if combo_config.enumerate_subsets && n <= 10 {
            Self::best_subset_exhaustive(&cands, k, max_tc)
        } else {
            Self::greedy_select(&cands, k, max_tc)
        };
        let kept = trim(&cands, asset_dists, &selected, combo_config.max_traded_assets);
        let ghost xs = chosen(asset_dists@, nav, *constraints, *combo_config);
        assert(xs =~= kept@.map_values(|i: usize| cands@[i as int]));
        if kept.len() == 0 {
            return None;
        }
        assert(kept@[0] < cands@.len());
        let mut fractions: Vec<Real> = Vec::new();
        let mut i: usize = 0;
        while i < kept.len()
            invariant
                i <= kept@.len(),
                forall|i: int| 0 <= i < kept@.len() ==> (#[trigger] kept@[i]) < cands@.len(),
                xs == kept@.map_values(|i: usize| cands@[i as int]),
                fractions@ =~= fractions_of(xs).take(i as int),
            decreases kept@.len() - i,
        {
            fractions.push(cands[kept[i]].f);
            i += 1;
        }
        assert(fractions@ =~= fractions_of(xs));
        let scale = exposure_factor(&fractions, constraints);
        let mut legs: Vec<OrderLeg> = Vec::new();
        let mut shares: Vec<Real> = Vec::new();
        let mut signed: Vec<Real> = Vec::new();
        let mut total_elg = Real::whole(0);
        let mut total_tc = Real::whole(0);
        let ghost elgs = xs.map_values(|x: AssetCandidate| x.elg);
        let ghost tcs = xs.map_values(|x: AssetCandidate| x.tc_bps);
        let mut j: usize = 0;
        while j < kept.len()
            invariant
                j <= kept@.len(),
                constraints.admissible(),
                forall|i: int| 0 <= i < kept@.len() ==> (#[trigger] kept@[i]) < cands@.len(),
                forall|i: int|
                    0 <= i < cands@.len() ==> (#[trigger] cands@[i]).place < asset_dists@.len(),
                xs == kept@.map_values(|i: usize| cands@[i as int]),
                elgs == xs.map_values(|x: AssetCandidate| x.elg),
                tcs == xs.map_values(|x: AssetCandidate| x.tc_bps),
                legs@.len() == j,
                forall|i: int|
                    0 <= i < j ==> is_leg(
                        #[trigger] legs@[i],
                        xs[i],
                        asset_dists@[xs[i].place as int],
                        scale,
                        *constraints,
                        nav,
                    ),
                total_elg == tally(elgs.take(j as int)),
                total_tc == tally(tcs.take(j as int)),
                shares@ =~= legs@.map_values(|l: OrderLeg| l.position_fraction),
                signed@ =~= legs@.map_values(|l: OrderLeg| signed_fraction(l)),
            decreases kept@.len() - j,
        {
            let x = cands[kept[j]];
            let leg = build_leg(&x, &asset_dists[x.place], scale, constraints, nav);
            total_elg = total_elg + x.elg;
            total_tc = total_tc + x.tc_bps;
            assert(elgs.take(j + 1).drop_last() =~= elgs.take(j as int));
            assert(tcs.take(j + 1).drop_last() =~= tcs.take(j as int));
            shares.push(leg.position_fraction);
            signed.push(
                if leg.is_long() {
                    leg.position_fraction
                } else {
                    leg.position_fraction.neg()
                },
            );
            legs.push(leg);
            j += 1;
        }
        assert(elgs.take(j as int) =~= elgs);
        assert(tcs.take(j as int) =~= tcs);
        let gross = sum(shares.as_slice());
        let net = sum(signed.as_slice());
        Some(
            ComboOrder {
                combo_id,
                generated_at_ms: now_ms,
                legs,
                total_expected_log_growth: total_elg,
                total_tc_bps: total_tc,
                gross_exposure_fraction: gross,
                net_exposure_fraction: net,
            },
        )
    }
}

proof fn lemma_nothing_chosen(
    dists: Seq<AssetDistribution>,
    nav: Real,
    c: PortfolioConstraints,
    cfg: ComboConfig,
)
    requires
        dists.len() == 0 || nav < Real::whole(1),
    ensures
        chosen(dists, nav, c, cfg).len() == 0,
{
    if dists.len() == 0 {
        let cands = candidates_of(dists, 0, c, cfg.min_leg_elg);
        assert(cands =~= Seq::empty());
        exhaustive_search_is_optimal(cands, 0, cfg.max_total_tc_bps, Seq::empty());
        assert(selection(cands, cfg) =~= Seq::empty());
    }
}

/// The number below `n + 1` that clamping to `0 ..= n` and truncation give.
proof fn lemma_index_below(x: Real, n: usize)
    requires
        n < 0x20_0000_0000_0000,
    ensures
        x.clamp(Real::count(0), Real::count(n)).index() <= n,
{
    lemma_count(0);
    lemma_count(n);
    lemma_whole(0);
    lemma_whole(n as i64);
    let y = x.clamp(Real::count(0), Real::count(n));
    let u = pow2(1074);
    lemma_pow2_pos(1074);
    if !y.nan() {
        assert(y.value() <= n * u);
        let m = mag_units(y.mag());
        if !y.negative() {
            lemma_div_is_ordered(m as int, n * u, u as int);
            lemma_div_by_multiple(n as int, u as int);
        }
    }
}

impl Default for KellyOptimizer {
    fn default() -> Self {
        KellyOptimizer
    }
}

/// The signed fraction held in an asset; zero where there is no position.
pub open spec fn held_fraction(portfolio: PortfolioState, asset: Seq<char>) -> Real {
    match portfolio.position_in(asset) {
        Some(p) => (if p.direction == Direction::Long {
            Real::whole(1)
        } else {
            Real::whole(1).neg()
        }) * p.size_usd / portfolio.nav.max(Real::whole(1)),
        None => Real::whole(0),
    }
}

/// The signed fraction held in an asset; zero where there is no position.
pub fn current_fraction_of(portfolio: &PortfolioState, asset: &str) -> (r: Real)
    ensures
        r == held_fraction(*portfolio, asset@),
{
    match portfolio.position(asset) {
        Some(p) => {
            let sign = if p.direction.is_long() {
                Real::whole(1)
            } else {
                Real::whole(1).neg()
            };
            sign * p.size_usd / portfolio.nav.max(Real::whole(1))
        },
        None => Real::whole(0),
    }
}

/// The candidate that a named distribution makes over a horizon, if it makes
/// one. Its growth is that of the single-period fraction.
pub open spec fn dp_candidate_at(
    dists: Seq<(String, EnsembleDistribution)>,
    i: int,
    portfolio: PortfolioState,
    c: PortfolioConstraints,
    horizon: nat,
) -> Option<AssetCandidate> {
    let dist = dists[i].1;
    let held = held_fraction(portfolio, dists[i].0@);
    let f = dp_fraction(dist, held, c, horizon);
    if !dist.is_confident() || dist.directional_edge().abs() < Real::ratio(5, 100) || f.abs()
        < Real::ratio(1, 10_000) {
        None
    } else {
        Some(
            AssetCandidate {
                place: i as usize,
                f,
                elg: log_growth(dist, best_fraction(dist, held, c.transaction_cost_bps, c)),
                tc_bps: Real::whole(0),
            },
        )
    }
}

/// The candidates among the first `n` named distributions, in order.
pub open spec fn dp_candidates_of(
    dists: Seq<(String, EnsembleDistribution)>,
    n: nat,
    portfolio: PortfolioState,
    c: PortfolioConstraints,
    horizon: nat,
) -> Seq<AssetCandidate>
    decreases n,
{
    if n == 0 {
        Seq::empty()
    } else {
        let before = dp_candidates_of(dists, (n - 1) as nat, portfolio, c, horizon);
        match dp_candidate_at(dists, n - 1, portfolio, c, horizon) {
            Some(x) => before.push(x),
            None => before,
        }
    }
}

/// The decision that a candidate becomes.
pub open spec fn is_decision(
    d: TradeDecision,
    x: AssetCandidate,
    dists: Seq<(String, EnsembleDistribution)>,
    scale: Real,
    c: PortfolioConstraints,
    nav: Real,
) -> bool {
    let dist = dists[x.place as int].1;
    let f = x.f * scale;
    let fraction = f.abs().min(c.max_position_fraction);
    &&& d.asset@ == dists[x.place as int].0@
    &&& d.direction == direction_of(f)
    &&& d.position_fraction == fraction
    &&& d.leverage == leverage_for(fraction, c)
    &&& d.position_size_usd == nav * fraction
    &&& d.expected_log_growth == x.elg
    &&& d.confidence == dist.confidence
    &&& d.regime_label@ == dist.regime()
}

/// The decisions over a horizon: one per candidate, scaled to the exposure
/// limits, by descending growth; none where there is less than one unit of net
/// asset value.
pub open spec fn are_decisions(
    r: Seq<TradeDecision>,
    dists: Seq<(String, EnsembleDistribution)>,
    portfolio: PortfolioState,
    c: PortfolioConstraints,
    horizon: nat,
) -> bool {
    let xs = dp_candidates_of(dists, dists.len(), portfolio, c, horizon);
    let scale = exposure_scale(fractions_of(xs), c);
    let order = stable_order_of(
        xs.map_values(|x: AssetCandidate| x.elg.neg()),
        xs.len(),
    );
    if portfolio.nav < Real::whole(1) {
        r.len() == 0
    } else {
        &&& r.len() == xs.len()
        &&& forall|i: int|
            0 <= i < xs.len() ==> is_decision(
                #[trigger] r[i],
                xs[order[i] as int],
                dists,
                scale,
                c,
                portfolio.nav,
            )
    }
}

/// A digit of a hexadecimal number, in lower case.
pub open spec fn is_hex_digit(c: char) -> bool {
    '0' <= c <= '9' || 'a' <= c <= 'f'
}

/// The text is a random identifier in hyphenated form: 32 hexadecimal digits with
/// hyphens behind the 8th, 12th, 16th and 20th, of which the 13th says that the
/// identifier is random and the 17th begins with the bits `10`.
pub open spec fn is_identifier(s: Seq<char>) -> bool {
    &&& s.len() == 36
    &&& s[8] == '-' && s[13] == '-' && s[18] == '-' && s[23] == '-'
    &&& forall|i: int|
        0 <= i < 36 && i != 8 && i != 13 && i != 18 && i != 23 ==> is_hex_digit(#[trigger] s[i])
    &&& s[14] == '4'
    &&& s[19] == '8' || s[19] == '9' || s[19] == 'a' || s[19] == 'b'
}

/// A fresh identifier, by `uuid::Uuid::new_v4` and its `to_string`: a version 4
/// identifier of the RFC 4122 variant, written in lower case with hyphens. The
/// other digits are random, and nothing is known of them.
#[verifier::external_body]
fn fresh_id() -> (r: String)
    ensures
        is_identifier(r@),
{
    uuid::Uuid::new_v4().to_string()
}

fn decide(
    distributions: &[(String, EnsembleDistribution)],
    portfolio: &PortfolioState,
    constraints: &PortfolioConstraints,
    horizon: usize,
) -> (r: Vec<TradeDecision>)
    requires
        any_sized(distributions@, portfolio.nav) ==> constraints.admissible(),
    ensures
        are_decisions(r@, distributions@, *portfolio, *constraints, horizon as nat),
{
    let mut out: Vec<TradeDecision> = Vec::new();
    if portfolio.nav < Real::whole(1) {
        return out;
    }
    let mut xs: Vec<AssetCandidate> = Vec::new();
    let mut n: usize = 0;
    while n < distributions.len()
        invariant
            n <= distributions@.len(),
            !(portfolio.nav < Real::whole(1)),
            any_sized(distributions@, portfolio.nav) ==> constraints.admissible(),
            xs@.len() > 0 ==> constraints.admissible(),
            xs@ == dp_candidates_of(
                distributions@,
                n as nat,
                *portfolio,
                *constraints,
                horizon as nat,
            ),
            forall|i: int| 0 <= i < xs@.len() ==> (#[trigger] xs@[i]).place < distributions@.len(),
        decreases distributions@.len() - n,
    {
        let dist = &distributions[n].1;
        if dist.is_confident() && !(dist.directional_edge().abs() < Real::ratio(5, 100)) {
            assert(worth_sizing(distributions@[n as int].1));
            let held = current_fraction_of(portfolio, distributions[n].0.as_str());
            let f = KellyOptimizer::dp_optimal_fraction(dist, held, constraints, horizon);
            if !(f.abs() < Real::ratio(1, 10_000)) {
                let (_, elg) = KellyOptimizer::optimize_single(dist, held, constraints);
                xs.push(AssetCandidate { place: n, f, elg, tc_bps: Real::whole(0) });
            }
        }
        n += 1;
    }
    let mut fractions: Vec<Real> = Vec::new();
    let mut keys: Vec<Real> = Vec::new();
    let ghost all = xs@.map_values(|x: AssetCandidate| x.elg.neg());
    let mut i: usize = 0;
    while i < xs.len()
        invariant
            i <= xs@.len(),
            fractions@ =~= fractions_of(xs@).take(i as int),
            all == xs@.map_values(|x: AssetCandidate| x.elg.neg()),
            keys@ =~= all.take(i as int),
        decreases xs@.len() - i,
    {
        fractions.push(xs[i].f);
        keys.push(xs[i].elg.neg());
        i += 1;
    }
    assert(fractions@ =~= fractions_of(xs@));
    assert(keys@ =~= all);
    let scale = exposure_factor(&fractions, constraints);
    let order = stable_order(keys.as_slice());
    let mut j: usize = 0;
    while j < order.len()
        invariant
            j <= order@.len(),
            xs@.len() > 0 ==> constraints.admissible(),
            order@.len() == xs@.len(),
            forall|i: int| 0 <= i < order@.len() ==> (#[trigger] order@[i]) < xs@.len(),
            forall|i: int| 0 <= i < xs@.len() ==> (#[trigger] xs@[i]).place < distributions@.len(),
            out@.len() == j,
            forall|i: int|
                0 <= i < j ==> is_decision(
                    #[trigger] out@[i],
                    xs@[order@[i] as int],
                    distributions@,
                    scale,
                    *constraints,
                    portfolio.nav,
                ),
        decreases order@.len() - j,
    {
        let x = xs[order[j]];
        let dist = &distributions[x.place].1;
        let f_s = x.f * scale;
        let direction = if f_s >= Real::whole(0) {
            Direction::Long
        } else {
            Direction::Short
        };
        let fraction = f_s.abs().min(constraints.max_position_fraction);
        let leverage = (fraction * constraints.max_leverage).clamp(
            Real::whole(1),
            constraints.max_leverage,
        );
        out.push(
            TradeDecision {
                asset: distributions[x.place].0.clone(),
                direction,
                position_fraction: fraction,
                leverage,
                position_size_usd: portfolio.nav * fraction,
                expected_log_growth: x.elg,
                confidence: dist.confidence,
                regime_label: dist.regime_description().to_owned(),
            },
        );
        j += 1;
    }
    out
}

impl PortfolioOptimizer for KellyOptimizer {
    /// Joint optimization over several assets.
    fn optimize_combo(
        &self,
        asset_dists: &[AssetDistribution],
        portfolio: &PortfolioState,
        constraints: &PortfolioConstraints,
        combo_config: &ComboConfig,
        now_ms: u64,
    ) -> (r: Option<ComboOrder>)
        ensures
            r is None <==> chosen(asset_dists@, portfolio.nav, *constraints, *combo_config).len()
                == 0,
            r matches Some(order) ==> is_order(
                order,
                asset_dists@,
                portfolio.nav,
                *constraints,
                *combo_config,
            ) && is_identifier(order.combo_id@) && order.generated_at_ms == now_ms,
    {
        self.build_combo(
            asset_dists,
            portfolio.nav,
            constraints,
            combo_config,
            fresh_id(),
            now_ms,
        )
    }

    /// Single-period optimization.
    fn optimize(
        &self,
        distributions: &[(String, EnsembleDistribution)],
        portfolio: &PortfolioState,
        constraints: &PortfolioConstraints,
    ) -> (r: Vec<TradeDecision>)
        ensures
            are_decisions(r@, distributions@, *portfolio, *constraints, 1),
    {
        decide(distributions, portfolio, constraints, 1)
    }

    /// Multi-period optimization by backward induction per asset.
    fn optimize_dp(
        &self,
        distributions: &[(String, EnsembleDistribution)],
        portfolio: &PortfolioState,
        constraints: &PortfolioConstraints,
        horizon: usize,
    ) -> (r: Vec<TradeDecision>)
        ensures
            are_decisions(r@, distributions@, *portfolio, *constraints, horizon as nat),
    {
        decide(distributions, portfolio, constraints, horizon)
    }
}

} // verus!
