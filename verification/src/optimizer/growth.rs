//! What growth, cost and direction of a position mean, and what the search over a horizon
//! finds.
use vstd::arithmetic::power2::{lemma_pow2_pos, pow2};
use vstd::prelude::*;

use crate::ensemble::distribution::EnsembleDistribution;
use crate::num::constants::minus_infinity;
use crate::num::magnitude::lemma_units_zero;
use crate::num::ops::lemma_order_key;
use crate::num::order::{lemma_add_grows, lemma_whole, lemma_whole_order};
use crate::num::rules::{
    is_product, is_quotient, is_sum, lemma_difference_sign, lemma_finite_factors,
    lemma_finite_terms, lemma_operations_are_close, lemma_plus_zero, lemma_product_near,
    lemma_times_zero, lemma_zero_value,
};
use crate::num::series::{last_max, lemma_last_max, sum_of_seq};
use crate::num::Real;
use crate::optimizer::exposure::lemma_chosen_places;
use crate::optimizer::kelly::{
    best_fraction, best_step, bp, candidate_at, chosen, direction_of, dp_fraction, exposure_scale,
    fractions_of, full_kelly, fraction_at, grid_point, held_fraction, is_leg, is_order, log_growth,
    nearest_point, ranking, spec_regime_min_rr, stage_values, step_value, AssetCandidate, GRID,
};
use crate::optimizer::types::{
    constraints_of, AssetDistribution, ComboConfig, ComboOrder, PortfolioConstraints,
};
use crate::risk::manager::PortfolioState;
use crate::signals::generator::Direction;

verus! {

/// The parts of a growth: what a fraction gains at the mean, and half of its square at the
/// second moment.
pub struct GrowthParts {
    pub gain: Real,
    pub half: Real,
    pub square: Real,
    pub variance: Real,
    pub mean_square: Real,
    pub moment: Real,
    pub risk: Real,
}

/// The number is what a fraction gains at the mean less half of its square at the second
/// moment of the return, each up to rounding.
pub open spec fn is_growth(r: Real, dist: EnsembleDistribution, f: Real, g: GrowthParts) -> bool {
    &&& is_product(g.gain, f, dist.predictive_mean)
    &&& is_product(g.half, Real::ratio(1, 2), f)
    &&& is_product(g.square, g.half, f)
    &&& is_product(g.variance, dist.predictive_std, dist.predictive_std)
    &&& is_product(g.mean_square, dist.predictive_mean, dist.predictive_mean)
    &&& is_sum(g.moment, g.variance, g.mean_square)
    &&& is_product(g.risk, g.square, g.moment)
    &&& is_sum(r, g.gain, g.risk.neg())
}

/// Growth is what the mean adds less what the second moment takes; without a position there
/// is none.
pub proof fn growth_weighs_mean_against_risk(dist: EnsembleDistribution, f: Real)
    requires
        log_growth(dist, f).finite(),
        dist.predictive_mean.finite(),
    ensures
        exists|g: GrowthParts| #[trigger] is_growth(log_growth(dist, f), dist, f, g),
        f.zero() ==> log_growth(dist, f).value() == 0,
{
    let (mu, half) = (dist.predictive_mean, Real::ratio(1, 2));
    let gain = f * mu;
    let h = half * f;
    let square = h * f;
    let (variance, mean_square) = (dist.predictive_std * dist.predictive_std, mu * mu);
    let moment = variance + mean_square;
    let risk = square * moment;
    lemma_finite_terms(gain, risk.neg());
    lemma_zero_value(risk.neg());
    assert(risk.finite());
    lemma_finite_factors(square, moment);
    lemma_finite_factors(h, f);
    lemma_finite_terms(variance, mean_square);
    lemma_operations_are_close(f, mu);
    lemma_operations_are_close(half, f);
    lemma_operations_are_close(h, f);
    lemma_operations_are_close(dist.predictive_std, dist.predictive_std);
    lemma_operations_are_close(mu, mu);
    lemma_operations_are_close(variance, mean_square);
    lemma_operations_are_close(square, moment);
    lemma_operations_are_close(gain, risk);
    let g = GrowthParts { gain, half: h, square, variance, mean_square, moment, risk };
    assert(is_growth(log_growth(dist, f), dist, f, g));
    if f.zero() {
        lemma_times_zero(mu, f);
        lemma_times_zero(h, f);
        lemma_times_zero(moment, square);
        lemma_zero_value(gain);
        lemma_zero_value(risk);
        lemma_plus_zero(gain, risk.neg());
    }
}

/// The net score of a candidate is its growth less its cost, a ten-thousandth per unit, up
/// to rounding.
pub proof fn score_is_growth_less_cost(x: AssetCandidate)
    requires
        x.net_score().finite(),
    ensures
        exists|cost: Real| #[trigger]
            is_product(cost, x.tc_bps, Real::ratio(1, 10_000)) && is_sum(
                x.net_score(),
                x.elg,
                cost.neg(),
            ),
{
    let cost = x.tc_bps * Real::ratio(1, 10_000);
    lemma_finite_terms(x.elg, cost.neg());
    lemma_zero_value(cost.neg());
    lemma_operations_are_close(x.tc_bps, Real::ratio(1, 10_000));
    lemma_operations_are_close(x.elg, cost);
    assert(is_product(cost, x.tc_bps, Real::ratio(1, 10_000)));
}

/// A candidate holds the best fraction of its distribution and the growth at it; its cost
/// is that of moving there from what is held, up to rounding.
pub proof fn candidate_moves_to_the_best_fraction(
    dists: Seq<AssetDistribution>,
    i: int,
    c: PortfolioConstraints,
    min_leg_elg: Real,
)
    requires
        0 <= i <= usize::MAX,
        candidate_at(dists, i, c, min_leg_elg) matches Some(x) && x.tc_bps.finite() && (x.f
            - dists[i].current_fraction).finite(),
    ensures
        candidate_at(dists, i, c, min_leg_elg) matches Some(x) && {
            let ad = dists[i];
            &&& x.place == i
            &&& x.f == best_fraction(ad.ensemble, ad.current_fraction, ad.estimated_tc_bps, c)
            &&& x.elg == log_growth(ad.ensemble, x.f)
            &&& exists|d: Real| #[trigger]
                is_sum(d, x.f, ad.current_fraction.neg()) && is_product(
                    x.tc_bps,
                    d.abs(),
                    ad.estimated_tc_bps,
                )
        },
{
    let ad = dists[i];
    if let Some(x) = candidate_at(dists, i, c, min_leg_elg) {
        let d = x.f - ad.current_fraction;
        lemma_operations_are_close(x.f, ad.current_fraction);
        lemma_operations_are_close(d.abs(), ad.estimated_tc_bps);
        assert(is_sum(d, x.f, ad.current_fraction.neg()));
    }
}

/// A positive fraction is long and a negative one short.
pub proof fn direction_is_the_sign(f: Real)
    requires
        f.finite(),
    ensures
        f.value() > 0 ==> direction_of(f) == Direction::Long,
        f.value() < 0 ==> direction_of(f) == Direction::Short,
{
    lemma_whole(0);
    assert(0 * pow2(1074) == 0);
}

/// Every leg of an order is of one of the assets, in the direction of the asset's best
/// fraction, with the growth at that fraction.
pub proof fn legs_follow_the_best_fractions(
    order: ComboOrder,
    dists: Seq<AssetDistribution>,
    nav: Real,
    c: PortfolioConstraints,
    cfg: ComboConfig,
    k: int,
)
    requires
        is_order(order, dists, nav, c, cfg),
        0 <= k < order.legs@.len(),
        dists.len() <= usize::MAX,
        ({
            let scale = exposure_scale(fractions_of(chosen(dists, nav, c, cfg)), c);
            scale.finite() && scale.value() > 0
        }),
        order.legs@[k].position_fraction.finite(),
        order.legs@[k].position_fraction.value() > 0,
        chosen(dists, nav, c, cfg)[k].f.finite(),
    ensures
        exists|p: int|
            0 <= p < dists.len() && {
                let (leg, ad) = (order.legs@[k], #[trigger] dists[p]);
                let f = best_fraction(ad.ensemble, ad.current_fraction, ad.estimated_tc_bps, c);
                &&& leg.asset@ == ad.asset@
                &&& leg.entry_price == ad.entry_price
                &&& leg.confidence == ad.ensemble.confidence
                &&& leg.expected_log_growth == log_growth(ad.ensemble, f)
                &&& f.value() > 0 ==> leg.direction == Direction::Long
                &&& f.value() < 0 && (f * exposure_scale(
                    fractions_of(chosen(dists, nav, c, cfg)),
                    c,
                )).value() != 0 ==> leg.direction == Direction::Short
            },
{
    let xs = chosen(dists, nav, c, cfg);
    let x = xs[k];
    let scale = exposure_scale(fractions_of(xs), c);
    lemma_chosen_places(dists, nav, c, cfg);
    assert(is_leg(order.legs@[k], x, dists[x.place as int], scale, c, nav));
    let p = x.place as int;
    let f = x.f * scale;
    lemma_whole(0);
    assert(0 * pow2(1074) == 0);
    if f.finite() {
        lemma_product_near(x.f, scale);
        let (a, b) = (x.f.value(), scale.value());
        assert(a > 0 ==> a * b >= 0) by (nonlinear_arith)
            requires
                b > 0,
        ;
        assert(a < 0 ==> a * b <= 0) by (nonlinear_arith)
            requires
                b > 0,
        ;
    } else {
        lemma_infinite_sign(x.f, scale);
    }
    assert(dists[p] == dists[x.place as int]);
}

/// A product that overflows has the sign of its first factor where the other is positive.
proof fn lemma_infinite_sign(a: Real, b: Real)
    requires
        a.finite(),
        b.finite(),
        b.value() > 0,
        !(a * b).finite(),
    ensures
        !(a * b).nan(),
        a.value() > 0 ==> (a * b).value() > 0,
        a.value() < 0 ==> (a * b).value() < 0,
{
    reveal(Real::spec_mul);
    lemma_zero_value(a);
    lemma_zero_value(b);
    lemma_units_zero(a.mag());
    lemma_units_zero(b.mag());
    crate::num::order::lemma_round_bound(
        crate::num::model::mag_units(a.mag()) * crate::num::model::mag_units(b.mag()),
        pow2(1074),
    );
    lemma_units_zero((a * b).mag());
}

/// The penalty holds a position back: where more than what is held would be best, the
/// fraction is no more than that, and where less would be best, no less.
pub proof fn penalty_holds_the_position_back(
    mu: Real,
    sigma2: Real,
    current: Real,
    tc_bps: Real,
    c: PortfolioConstraints,
)
    requires
        c.bounds_positions(),
        ({
            let k = c.kelly_fraction * full_kelly(mu, sigma2);
            let cost = tc_bps * bp();
            &&& k.finite()
            &&& current.finite()
            &&& k.value() != current.value()
            &&& Real::whole(0) <= c.turnover_penalty && c.turnover_penalty.finite()
            &&& Real::whole(0) <= cost && cost.finite()
            &&& (k - c.turnover_penalty * (k - current).signum() * cost).finite()
        }),
    ensures
        ({
            let k = c.kelly_fraction * full_kelly(mu, sigma2);
            let top = c.max_position_fraction;
            let r = fraction_at(mu, sigma2, current, tc_bps, c);
            &&& k.value() > current.value() ==> r <= k.clamp(top.neg(), top)
            &&& k.value() < current.value() ==> k.clamp(top.neg(), top) <= r
        }),
{
    let k = c.kelly_fraction * full_kelly(mu, sigma2);
    let (t, cost, top) = (c.turnover_penalty, tc_bps * bp(), c.max_position_fraction);
    let (zero, one) = (Real::whole(0), Real::whole(1));
    let w = pow2(1074) as int;
    lemma_pow2_pos(1074);
    lemma_whole(0);
    lemma_whole(1);
    assert(0 * w == 0 && 1 * w == w);
    let d = k - current;
    lemma_difference_sign(k, current);
    lemma_zero_value(d);
    let s = d.signum();
    lemma_zero_value(one);
    assert(k.value() > current.value() ==> s == one);
    assert(k.value() < current.value() ==> s == one.neg());
    let p = t * s * cost;
    crate::num::rules::lemma_times_one(t);
    lemma_finite_terms(k, p.neg());
    lemma_zero_value(p.neg());
    crate::num::rules::lemma_negated_factor(t, one);
    lemma_zero_value(t);
    let x = t * s;
    assert(x.finite() && (s == one ==> x.value() >= 0) && (s == one.neg() ==> x.value() <= 0));
    lemma_product_near(x, cost);
    let (a, b) = (x.value(), cost.value());
    assert(a >= 0 ==> a * b >= 0) by (nonlinear_arith)
        requires
            b >= 0,
    ;
    assert(a <= 0 ==> a * b <= 0) by (nonlinear_arith)
        requires
            b >= 0,
    ;
    let r = k - p;
    assert(k.value() > current.value() ==> r.value() <= k.value()) by {
        if k.value() > current.value() {
            lemma_zero_value(p);
            lemma_moved_down(k, p);
        }
    }
    assert(k.value() < current.value() ==> r.value() >= k.value()) by {
        if k.value() < current.value() {
            lemma_zero_value(p);
            lemma_order_key(zero, p.neg());
            lemma_add_grows(k, p.neg());
        }
    }
    lemma_order_key(r, k);
    lemma_order_key(top.neg(), top);
    lemma_order_key(r, top);
    lemma_order_key(r, top.neg());
    lemma_order_key(k, top);
    lemma_order_key(k, top.neg());
}

/// Taking away what is not negative makes no number larger.
proof fn lemma_moved_down(k: Real, p: Real)
    requires
        k.finite(),
        p.finite(),
        p.value() >= 0,
        (k - p).finite(),
    ensures
        (k - p).value() <= k.value(),
{
    lemma_zero_value(k);
    lemma_zero_value(p);
    lemma_whole(0);
    assert(0 * pow2(1074) == 0);
    lemma_order_key(p.neg(), Real::whole(0));
    lemma_zero_value(Real::whole(0));
    lemma_plus_zero(k, Real::whole(0));
    crate::num::order::lemma_add_commutes(k, p.neg());
    crate::num::order::lemma_add_commutes(k, Real::whole(0));
    assert(!(k + Real::whole(0)).nan());
    crate::num::order::lemma_add_monotone(p.neg(), Real::whole(0), k);
    lemma_order_key(k - p, k + Real::whole(0));
}

/// The best step is no worse than any step to a grid point, and is one of them.
pub proof fn best_step_is_best(
    dist: EnsembleDistribution,
    c: PortfolioConstraints,
    from: Real,
    next: Seq<Real>,
    n: nat,
)
    requires
        n <= next.len(),
        forall|i: int|
            0 <= i < n ==> !step_value(
                dist,
                c,
                from,
                #[trigger] grid_point(c.max_position_fraction, i),
                next[i],
            ).nan(),
    ensures
        ({
            let best = best_step(dist, c, from, next, n);
            &&& !best.nan()
            &&& forall|i: int|
                0 <= i < n ==> step_value(
                    dist,
                    c,
                    from,
                    #[trigger] grid_point(c.max_position_fraction, i),
                    next[i],
                ) <= best
            &&& best == minus_infinity() || exists|i: int|
                0 <= i < n && best == step_value(
                    dist,
                    c,
                    from,
                    #[trigger] grid_point(c.max_position_fraction, i),
                    next[i],
                )
        }),
    decreases n,
{
    if n > 0 {
        let m = (n - 1) as nat;
        best_step_is_best(dist, c, from, next, m);
        let a = best_step(dist, c, from, next, m);
        let g = grid_point(c.max_position_fraction, n - 1);
        let x = step_value(dist, c, from, g, next[n - 1]);
        assert(!x.nan());
        lemma_order_key(a, x);
        let best = best_step(dist, c, from, next, n);
        assert forall|i: int| 0 <= i < n implies step_value(
            dist,
            c,
            from,
            #[trigger] grid_point(c.max_position_fraction, i),
            next[i],
        ) <= best by {
            if i < n - 1 {
                let y = step_value(
                    dist,
                    c,
                    from,
                    grid_point(c.max_position_fraction, i),
                    next[i],
                );
                lemma_order_key(y, a);
                lemma_order_key(y, x);
            }
        }
    }
}

/// Over a horizon the fraction is a grid point that no other betters: its growth less the
/// penalty of moving there and what follows is the largest.
pub proof fn horizon_fraction_is_best(
    dist: EnsembleDistribution,
    current: Real,
    c: PortfolioConstraints,
    horizon: nat,
)
    requires
        horizon > 1,
        ({
            let from = grid_point(
                c.max_position_fraction,
                nearest_point(current, c.max_position_fraction) as int,
            );
            let values = stage_values(dist, c, (horizon - 1) as nat);
            forall|i: int|
                0 <= i < GRID ==> !step_value(
                    dist,
                    c,
                    from,
                    #[trigger] grid_point(c.max_position_fraction, i),
                    values[i],
                ).nan()
        }),
    ensures
        ({
            let fmax = c.max_position_fraction;
            let from = grid_point(fmax, nearest_point(current, fmax) as int);
            let values = stage_values(dist, c, (horizon - 1) as nat);
            exists|k: int|
                0 <= k < GRID && dp_fraction(dist, current, c, horizon) == #[trigger] grid_point(
                    fmax,
                    k,
                ) && forall|i: int|
                    0 <= i < GRID ==> step_value(
                        dist,
                        c,
                        from,
                        #[trigger] grid_point(fmax, i),
                        values[i],
                    ) <= step_value(dist, c, from, grid_point(fmax, k), values[k])
        }),
{
    let fmax = c.max_position_fraction;
    let from = grid_point(fmax, nearest_point(current, fmax) as int);
    let values = stage_values(dist, c, (horizon - 1) as nat);
    let totals = Seq::new(
        GRID as nat,
        |i: int| step_value(dist, c, from, grid_point(fmax, i), values[i]),
    );
    assert forall|i: int| 0 <= i < totals.len() implies !(#[trigger] totals[i]).nan() by {
        assert(!step_value(dist, c, from, grid_point(fmax, i), values[i]).nan());
    }
    lemma_last_max(totals);
    let k = last_max(totals);
    assert(dp_fraction(dist, current, c, horizon) == grid_point(fmax, k));
    assert forall|i: int| 0 <= i < GRID implies step_value(
        dist,
        c,
        from,
        #[trigger] grid_point(fmax, i),
        values[i],
    ) <= step_value(dist, c, from, grid_point(fmax, k), values[k]) by {
        assert(totals[i] <= totals[k]);
    }
}

/// A step is worth the growth where it leads, less the penalty of the distance, and what
/// follows, up to rounding.
pub proof fn step_pays_for_its_distance(
    dist: EnsembleDistribution,
    c: PortfolioConstraints,
    from: Real,
    to: Real,
    next: Real,
)
    requires
        step_value(dist, c, from, to, next).finite(),
    ensures
        exists|d: Real, penalty: Real, net: Real|
            #![trigger is_sum(d, to, from.neg()), is_product(
                penalty,
                c.turnover_penalty,
                d.abs(),
            ), is_sum(net, log_growth(dist, to), penalty.neg())]
            is_sum(d, to, from.neg()) && is_product(penalty, c.turnover_penalty, d.abs()) && is_sum(
                net,
                log_growth(dist, to),
                penalty.neg(),
            ) && is_sum(step_value(dist, c, from, to, next), net, next),
{
    let d = to - from;
    let penalty = c.turnover_penalty * d.abs();
    let net = log_growth(dist, to) - penalty;
    lemma_finite_terms(net, next);
    lemma_finite_terms(log_growth(dist, to), penalty.neg());
    lemma_zero_value(penalty.neg());
    lemma_finite_factors(c.turnover_penalty, d.abs());
    assert(d.finite());
    lemma_operations_are_close(to, from);
    lemma_operations_are_close(c.turnover_penalty, d.abs());
    lemma_operations_are_close(log_growth(dist, to), penalty);
    lemma_operations_are_close(net, next);
    assert(is_sum(d, to, from.neg()) && is_product(penalty, c.turnover_penalty, d.abs()) && is_sum(
        net,
        log_growth(dist, to),
        penalty.neg(),
    ));
}

/// Within one period the fraction is the best one.
pub proof fn single_period_takes_the_best_fraction(
    dist: EnsembleDistribution,
    current: Real,
    c: PortfolioConstraints,
)
    ensures
        dp_fraction(dist, current, c, 1) == best_fraction(
            dist,
            current,
            c.transaction_cost_bps,
            c,
        ),
{
}

/// The grid starts at the largest short position and rises in fortieths of twice the
/// largest position, up to rounding.
pub proof fn grid_rises_in_equal_steps(fmax: Real, i: usize)
    requires
        i <= 40,
        grid_point(fmax, i as int).finite(),
        Real::count(40).value() != 0,
        Real::count(40).finite(),
    ensures
        exists|width: Real, part: Real, step: Real|
            #![trigger is_product(width, Real::whole(2), fmax), is_product(
                part,
                width,
                Real::count(i),
            ), is_sum(grid_point(fmax, i as int), fmax.neg(), step)]
            is_product(width, Real::whole(2), fmax) && is_product(part, width, Real::count(i))
                && is_quotient(step, part, Real::count(40)) && is_sum(
                grid_point(fmax, i as int),
                fmax.neg(),
                step,
            ),
{
    let width = Real::whole(2) * fmax;
    let part = width * Real::count(i);
    let step = part / Real::count(40);
    lemma_finite_terms(fmax.neg(), step);
    lemma_finite_dividend(part, Real::count(40));
    lemma_finite_factors(width, Real::count(i));
    lemma_operations_are_close(Real::whole(2), fmax);
    lemma_operations_are_close(width, Real::count(i));
    lemma_operations_are_close(part, Real::count(40));
    lemma_operations_are_close(fmax.neg(), step);
    assert(is_product(width, Real::whole(2), fmax) && is_product(part, width, Real::count(i))
        && is_sum(grid_point(fmax, i as int), fmax.neg(), step));
}

proof fn lemma_finite_dividend(x: Real, y: Real)
    requires
        (x / y).finite(),
        y.finite(),
    ensures
        x.finite(),
{
    reveal(Real::spec_div);
}

/// The fraction held in an asset times the net asset value is the size of the position, up
/// to rounding, negative for a short one; without a position it is nothing.
pub proof fn held_fraction_is_a_share(portfolio: PortfolioState, asset: Seq<char>)
    requires
        Real::whole(1) <= portfolio.nav,
        portfolio.nav.finite(),
        portfolio.position_in(asset) matches Some(p) ==> p.size_usd.finite(),
        held_fraction(portfolio, asset).finite(),
    ensures
        portfolio.position_in(asset) is None ==> held_fraction(portfolio, asset).zero(),
        portfolio.position_in(asset) matches Some(p) ==> is_quotient(
            held_fraction(portfolio, asset),
            if p.direction == Direction::Long {
                p.size_usd
            } else {
                p.size_usd.neg()
            },
            portfolio.nav,
        ),
{
    let one = Real::whole(1);
    let w = pow2(1074) as int;
    lemma_pow2_pos(1074);
    lemma_whole(0);
    lemma_whole(1);
    assert(0 * w == 0 && 1 * w == w);
    lemma_units_zero(0);
    lemma_order_key(one, portfolio.nav);
    if let Some(p) = portfolio.position_in(asset) {
        crate::num::rules::lemma_times_one(p.size_usd);
        crate::num::rules::lemma_negated_factor(one, p.size_usd);
        lemma_zero_value(p.size_usd);
        lemma_operations_are_close(p.size_usd, portfolio.nav);
        lemma_operations_are_close(p.size_usd.neg(), portfolio.nav);
        if portfolio.nav.max(one) != portfolio.nav {
            crate::num::rules::lemma_same_value(portfolio.nav, one);
        }
    } else {
        lemma_zero_value(Real::whole(0));
    }
}

/// Calmer regimes ask for less: high volatility for the most reward per risk, a trend for
/// less, and the others for the least.
pub proof fn wilder_regimes_ask_for_more(regime: Seq<char>)
    requires
        regime != "high_vol"@,
        regime != "trending"@,
        "high_vol"@ != "trending"@,
    ensures
        spec_regime_min_rr(regime) < spec_regime_min_rr("trending"@),
        spec_regime_min_rr("trending"@) < spec_regime_min_rr("high_vol"@),
        Real::whole(1) <= spec_regime_min_rr(regime),
{
    lemma_whole_order(2, 3);
    lemma_whole(1);
    lemma_whole(2);
    lemma_whole(3);
    lemma_pow2_pos(1074);
    crate::num::order::lemma_whole_below_ratio(1, 3, 2);
    let r = Real::ratio(3, 2);
    let w = pow2(1074) as int;
    crate::num::order::lemma_ratio_order(3, 2, 2, 1);
    crate::num::rules::lemma_over_one(Real::whole(2));
    crate::num::rules::lemma_between(Real::whole(1), r, Real::whole(2));
    crate::num::rules::lemma_quotient_near(Real::whole(3), Real::whole(2));
    let q = r.value();
    if q == 2 * w {
        assert(q * (2 * w) - (3 * w) * w == w * w) by (nonlinear_arith)
            requires
                q == 2 * w,
        ;
        vstd::arithmetic::power2::lemma2_to64();
        vstd::arithmetic::power2::lemma2_to64_rest();
        vstd::arithmetic::power2::lemma_pow2_strictly_increases(60, 1074);
        assert(false) by (nonlinear_arith)
            requires
                w * w * crate::num::drift::PARTS <= (3 * w) * w + (2 * w)
                    * crate::num::model::BINADE,
                w >= 0x1000_0000_0000_0000,
                crate::num::drift::PARTS == 0x20_0000_0000_0000,
                crate::num::model::BINADE == 0x10_0000_0000_0000,
        ;
    }
    lemma_order_key(r, Real::whole(2));
}

/// Fractions within both exposure limits are not scaled; others are scaled by the limit
/// that they exceed over their exposure, up to rounding, by the smaller where they exceed
/// both.
pub proof fn scale_is_no_smaller_than_needed(fractions: Seq<Real>, c: PortfolioConstraints)
    requires
        ({
            let gross = sum_of_seq(fractions.map_values(|f: Real| f.abs()));
            let net = sum_of_seq(fractions).abs();
            &&& gross.finite() && net.finite()
            &&& c.max_gross_exposure.finite() && c.max_net_exposure.finite()
            &&& Real::whole(0) <= c.max_gross_exposure && Real::whole(0) <= c.max_net_exposure
        }),
        exposure_scale(fractions, c).finite(),
    ensures
        ({
            let gross = sum_of_seq(fractions.map_values(|f: Real| f.abs()));
            let net = sum_of_seq(fractions).abs();
            let r = exposure_scale(fractions, c);
            &&& gross <= c.max_gross_exposure && net <= c.max_net_exposure ==> r == Real::whole(1)
            &&& r == Real::whole(1) || (c.max_gross_exposure < gross && is_quotient(
                r,
                c.max_gross_exposure,
                gross,
            )) || (c.max_net_exposure < net && is_quotient(r, c.max_net_exposure, net))
        }),
{
    let gross = sum_of_seq(fractions.map_values(|f: Real| f.abs()));
    let net = sum_of_seq(fractions).abs();
    let one = Real::whole(1);
    lemma_whole(0);
    lemma_whole(1);
    assert(0 * pow2(1074) == 0);
    if c.max_gross_exposure < gross {
        lemma_order_key(Real::whole(0), gross);
        lemma_operations_are_close(c.max_gross_exposure, gross);
    }
    if c.max_net_exposure < net {
        lemma_order_key(Real::whole(0), net);
        lemma_operations_are_close(c.max_net_exposure, net);
    }
}

/// The ranking never puts a candidate behind one with a lower net score.
pub proof fn ranking_descends(cands: Seq<AssetCandidate>, i: int, j: int)
    requires
        cands.len() <= usize::MAX,
        forall|k: int| 0 <= k < cands.len() ==> !(#[trigger] cands[k]).net_score().nan(),
        0 <= i < j < cands.len(),
    ensures
        ({
            let r = ranking(cands);
            &&& r.len() == cands.len()
            &&& r[i] < cands.len()
            &&& r[j] < cands.len()
            &&& cands[r[j] as int].net_score() <= cands[r[i] as int].net_score()
        }),
{
    let keys = cands.map_values(|x: AssetCandidate| x.net_score().neg());
    assert forall|k: int| 0 <= k < keys.len() implies !(#[trigger] keys[k]).nan() by {
        assert(!cands[k].net_score().nan());
        lemma_zero_value(cands[k].net_score());
    }
    crate::num::series::lemma_stable_order(keys, cands.len());
    crate::num::series::lemma_stable_order_places(keys, cands.len());
    let r = ranking(cands);
    let (x, y) = (cands[r[i] as int].net_score(), cands[r[j] as int].net_score());
    assert(!cands[r[i] as int].net_score().nan());
    assert(!cands[r[j] as int].net_score().nan());
    lemma_zero_value(x);
    lemma_zero_value(y);
    assert(keys[r[i] as int] == x.neg() && keys[r[j] as int] == y.neg());
    assert(x.neg() <= y.neg());
    lemma_order_key(x.neg(), y.neg());
    lemma_order_key(y, x);
}

/// The constraints are those of the configuration: exposure and leverage up to the largest
/// leverage, one asset up to its weight, and the net exposure up to six tenths of the gross
/// one, up to rounding.
pub proof fn constraints_follow_the_limits(max_lev: Real, max_weight: Real, kelly: Real)
    requires
        constraints_of(max_lev, max_weight, kelly).max_net_exposure.finite(),
    ensures
        ({
            let c = constraints_of(max_lev, max_weight, kelly);
            &&& c.max_position_fraction == max_weight
            &&& c.max_gross_exposure == max_lev
            &&& c.max_leverage == max_lev
            &&& c.kelly_fraction == kelly
            &&& is_product(c.max_net_exposure, max_lev, Real::ratio(6, 10))
        }),
{
    lemma_operations_are_close(max_lev, Real::ratio(6, 10));
}

} // verus!
