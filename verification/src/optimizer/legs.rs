//! What the legs of a joint order are, in their own numbers.
use vstd::arithmetic::power2::*;
use vstd::prelude::*;

use crate::ensemble::distribution::EnsembleDistribution;
use crate::num::drift::{
    exact_sum, lemma_add_close, lemma_mul_close, lemma_mul_commutes, lemma_mul_shrinks, size, sizes,
    PARTS,
};
use crate::num::magnitude::lemma_units_zero;
use crate::num::model::{mag_units, BINADE};
use crate::num::ops::lemma_order_key;
use crate::num::order::{
    lemma_add_commutes, lemma_add_grows, lemma_add_monotone, lemma_add_not_negative, lemma_halves,
    lemma_mul_monotone, lemma_round_bound, lemma_round_monotone, lemma_whole,
    lemma_whole_below_ratio,
};
use crate::num::rules::{
    lemma_between, lemma_half, lemma_negated_factor, lemma_negated_term, lemma_plus_zero,
    lemma_scaled_quotient, lemma_subtracts, lemma_sum_near, lemma_times_zero, lemma_zero_value,
};
use crate::num::series::sum_of_seq;
use crate::num::Real;
use crate::optimizer::exposure::lemma_chosen_places;
use crate::optimizer::kelly::{best_fraction, chosen, full_kelly, is_order, signed_fraction};
use crate::optimizer::types::{
    AssetDistribution, ComboConfig, ComboOrder, OrderLeg, PortfolioConstraints,
};
use crate::signals::generator::Direction;

verus! {

/// The stop of a leg is where it loses, and the target where it earns.
pub open spec fn exits_are_on_their_sides(leg: OrderLeg) -> bool {
    match leg.direction {
        Direction::Long => leg.stop_loss <= leg.entry_price && leg.entry_price <= leg.take_profit,
        Direction::Short => leg.take_profit <= leg.entry_price && leg.entry_price <= leg.stop_loss,
    }
}

/// An entry price is positive, a deviation not negative, and three times the distance
/// of the stop is still a number.
pub open spec fn is_quoted(ad: AssetDistribution) -> bool {
    let s = ad.ensemble.predictive_std;
    let x = Real::whole(2) * s;
    &&& Real::whole(0) < ad.entry_price && ad.entry_price.finite()
    &&& Real::whole(0) <= s && s.finite() && x.finite()
    &&& (x * ad.entry_price).finite()
    &&& (x * ad.entry_price * Real::whole(3)).finite()
}

/// The ratio of target to stop distance that a regime asks for, doubled.
pub open spec fn twice_the_ratio(regime: Seq<char>) -> int {
    if regime == "high_vol"@ {
        6
    } else if regime == "trending"@ {
        4
    } else {
        3
    }
}

/// `x` is `p * (1 + m * s)` up to rounding, for a price, a deviation and a multiple
/// counted in halves.
pub open spec fn is_moved_by(x: Real, p: Real, s: Real, halves: int) -> bool {
    let (v, e, d, w) = (x.value(), p.value(), s.value(), pow2(1074) as int);
    size(2 * (v * w) - e * (2 * w + halves * d)) * PARTS <= e * (300 * d + 100 * w) + 100 * (w
        * PARTS)
}

proof fn lemma_three_halves()
    ensures
        Real::ratio(3, 2).finite(),
        Real::ratio(3, 2).value() == 3 * pow2(1073),
        2 * pow2(1073) == pow2(1074),
{
    let w = pow2(1074);
    lemma_whole(3);
    lemma_whole(2);
    lemma_half();
    lemma_pow2_pos(1074);
    lemma_units_zero(Real::whole(2).mag());
    reveal(Real::spec_div);
    let h = pow2(1073);
    let b = lemma_halves(3);
    assert((3 * w * w) * 1 == (3 * h) * (2 * w)) by (nonlinear_arith)
        requires
            w == 2 * h,
    ;
    lemma_round_monotone(3 * w * w, 2 * w, 3 * h, 1);
    lemma_round_monotone(3 * h, 1, 3 * w * w, 2 * w);
}

/// Twice a deviation, up to rounding.
proof fn lemma_double(s: Real)
    requires
        Real::whole(0) <= s,
        s.finite(),
        (Real::whole(2) * s).finite(),
    ensures
        0 <= (Real::whole(2) * s).value(),
        size((Real::whole(2) * s).value() - 2 * s.value()) * PARTS <= 2 * s.value() + PARTS,
{
    lemma_whole(0);
    lemma_whole(2);
    let w = pow2(1074) as int;
    lemma_pow2_pos(1074);
    assert(0 * w == 0);
    lemma_mul_close(Real::whole(2), s);
    let (x, v) = ((Real::whole(2) * s).value(), s.value());
    let d = x - 2 * v;
    assert(size(d) * PARTS <= 2 * v + PARTS) by (nonlinear_arith)
        requires
            size(x * w - (2 * w) * v) * PARTS <= (2 * w) * v + w * BINADE,
            d == x - 2 * v,
            w > 0,
            PARTS == 2 * BINADE,
            v >= 0,
    ;
}

/// The steps of a stop or target: the distance `d` of the stop, its multiple `t`, and
/// the sum or difference `r`.
proof fn lemma_exit(
    w: int,
    e: int,
    s: int,
    x: int,
    d: int,
    t: int,
    r: int,
    m: int,
    up: bool,
)
    requires
        w >= PARTS,
        e >= 0,
        s >= 0,
        x >= 0,
        d >= 0,
        t >= 0,
        2 <= m <= 6,
        size(x - 2 * s) * PARTS <= 2 * s + PARTS,
        size(d * w - e * x) * PARTS <= e * x + w * BINADE,
        size(2 * (t * w) - d * (m * w)) * PARTS <= d * (m * w) + 2 * (w * BINADE),
        size(r - (if up { e + t } else { e - t })) * PARTS <= e + t,
    ensures
        size(2 * (r * w) - e * (2 * w + (if up { m } else { -m }) * (2 * s))) * PARTS <= e * (300 * s
            + 100 * w) + 100 * (w * PARTS),
{
    let e0 = x - 2 * s;
    let e1 = d * w - e * x;
    let e2 = 2 * (t * w) - d * (m * w);
    let st = if up {
        t
    } else {
        -t
    };
    let e3 = r - (e + st);
    let mm = if up {
        m
    } else {
        -m
    };
    let a = e * (2 * w + mm * (2 * s));
    let q = 2 * (r * w) - a;
    let ee = e * e0;
    let (me1, mee) = (m * e1, m * ee);
    assert(2 * (r * w) == 2 * (e * w) + 2 * (st * w) + 2 * (e3 * w)) by (nonlinear_arith)
        requires
            r == e + st + e3,
    ;
    assert(st * w == if up {
        t * w
    } else {
        -(t * w)
    }) by (nonlinear_arith)
        requires
            st == if up { t } else { -t },
    ;
    assert(d * (m * w) == me1 + mee + 2 * (m * (e * s))) by (nonlinear_arith)
        requires
            e1 == d * w - e * x,
            ee == e * e0,
            e0 == x - 2 * s,
            me1 == m * e1,
            mee == m * ee,
    ;
    assert(a == 2 * (e * w) + 2 * (if up {
        m * (e * s)
    } else {
        -(m * (e * s))
    })) by (nonlinear_arith)
        requires
            a == e * (2 * w + mm * (2 * s)),
            mm == if up { m } else { -m },
    ;
    let ex = e * x;
    let es = e * s;
    assert(es >= 0 && ex >= 0) by (nonlinear_arith)
        requires
            es == e * s,
            ex == e * x,
            e >= 0,
            s >= 0,
            x >= 0,
    ;
    assert(x <= 4 * s + 1) by (nonlinear_arith)
        requires
            e0 == x - 2 * s,
            size(e0) * PARTS <= 2 * s + PARTS,
            s >= 0,
    ;
    assert(ex <= 4 * es + e) by (nonlinear_arith)
        requires
            ex == e * x,
            es == e * s,
            x <= 4 * s + 1,
            e >= 0,
    ;
    let dw = d * w;
    assert(dw <= 2 * ex + w * BINADE) by (nonlinear_arith)
        requires
            e1 == dw - ex,
            size(e1) * PARTS <= ex + w * BINADE,
            ex >= 0,
            w > 0,
    ;
    let dm = d * (m * w);
    assert(dm <= 6 * dw && dm >= 0) by (nonlinear_arith)
        requires
            dm == d * (m * w),
            dw == d * w,
            2 <= m <= 6,
            d >= 0,
            w > 0,
    ;
    let tw = t * w;
    assert(2 * tw <= 2 * dm + w * BINADE) by (nonlinear_arith)
        requires
            e2 == 2 * tw - dm,
            size(e2) * PARTS <= dm + 2 * (w * BINADE),
            dm >= 0,
            w > 0,
            PARTS == 2 * BINADE,
    ;
    let (b1, b2, b3, b4) = (2 * (e3 * w), e2, me1, mee);
    assert(size(b1) * PARTS <= 2 * (e * w) + 2 * tw) by (nonlinear_arith)
        requires
            b1 == 2 * (e3 * w),
            size(e3) * PARTS <= e + t,
            tw == t * w,
            w > 0,
    ;
    assert(size(b3) * PARTS <= 6 * (ex + w * BINADE)) by (nonlinear_arith)
        requires
            b3 == m * e1,
            2 <= m <= 6,
            size(e1) * PARTS <= ex + w * BINADE,
    ;
    assert(size(b4) * PARTS <= 6 * (2 * es + e * PARTS)) by (nonlinear_arith)
        requires
            b4 == m * (e * e0),
            2 <= m <= 6,
            size(e0) * PARTS <= 2 * s + PARTS,
            es == e * s,
            e >= 0,
    ;
    assert(size(q) * PARTS <= size(b1) * PARTS + size(b2) * PARTS + size(b3) * PARTS + size(b4)
        * PARTS) by (nonlinear_arith)
        requires
            size(q) <= size(b1) + size(b2) + size(b3) + size(b4),
    ;
    assert(e * PARTS <= e * w) by (nonlinear_arith)
        requires
            w >= PARTS,
            e >= 0,
    ;
    assert(e <= e * w) by (nonlinear_arith)
        requires
            w >= 1,
            e >= 0,
    ;
    assert(w * BINADE <= w * PARTS && w * BINADE >= 0) by (nonlinear_arith)
        requires
            w > 0,
            BINADE <= PARTS,
    ;
    assert(e * (300 * s + 100 * w) == 300 * es + 100 * (e * w)) by (nonlinear_arith)
        requires
            es == e * s,
    ;
}

proof fn lemma_exits(ad: AssetDistribution, rr: Real, m: int)
    requires
        is_quoted(ad),
        rr.finite(),
        2 * rr.value() == m * pow2(1074),
        2 <= m <= 6,
    ensures
        ({
            let (e, s) = (ad.entry_price, ad.ensemble.predictive_std);
            let d = Real::whole(2) * s * e;
            &&& e - d <= e && e <= e + d
            &&& e - d * rr <= e && e <= e + d * rr
            &&& is_moved_by(e - d, e, s, -4)
            &&& (e + d).finite() ==> is_moved_by(e + d, e, s, 4)
            &&& is_moved_by(e - d * rr, e, s, -2 * m)
            &&& (e + d * rr).finite() ==> is_moved_by(e + d * rr, e, s, 2 * m)
        }),
{
    let (e, s) = (ad.entry_price, ad.ensemble.predictive_std);
    let x = Real::whole(2) * s;
    let d = x * e;
    let one = Real::whole(1);
    lemma_whole(0);
    lemma_whole(1);
    lemma_whole(3);
    let w = pow2(1074) as int;
    lemma_pow2_pos(1074);
    lemma2_to64();
    lemma2_to64_rest();
    lemma_pow2_strictly_increases(53, 1074);
    assert(0 * w == 0 && 1 * w == w);
    lemma_double(s);
    lemma_mul_close(x, e);
    assert(x.value() * e.value() == e.value() * x.value()) by (nonlinear_arith);
    lemma_zero_value(d);
    lemma_step(e, d);
    let t = d * rr;
    assert(m * w >= 0) by (nonlinear_arith)
        requires
            m >= 0,
            w > 0,
    ;
    assert(rr.value() <= 3 * w) by (nonlinear_arith)
        requires
            2 * rr.value() == m * w,
            m <= 6,
            w > 0,
    ;
    // The multiple is finite because three times the distance is.
    lemma_mul_monotone(rr, Real::whole(3), d);
    assert(t.finite()) by {
        lemma_between(Real::whole(0), t, d * Real::whole(3));
    }
    lemma_mul_close(d, rr);
    lemma_zero_value(t);
    lemma_step(e, t);
    let (dv, tv, rv) = (d.value(), t.value(), rr.value());
    assert(size(2 * (tv * w) - dv * (m * w)) * PARTS <= dv * (m * w) + 2 * (w * BINADE))
        by (nonlinear_arith)
        requires
            size(tv * w - dv * rv) * PARTS <= dv * rv + w * BINADE,
            2 * rv == m * w,
    ;
    assert(2 * (dv * w) - dv * (2 * w) == 0) by (nonlinear_arith);
    assert(dv * (2 * w) >= 0) by (nonlinear_arith)
        requires
            dv >= 0,
            w > 0,
    ;
    let (ev, sv, xv) = (e.value(), s.value(), x.value());
    lemma_exit(w, ev, sv, xv, dv, dv, (e - d).value(), 2, false);
    lemma_exit(w, ev, sv, xv, dv, tv, (e - t).value(), m, false);
    assert((-2) * (2 * sv) == (-4) * sv && (-m) * (2 * sv) == (-2 * m) * sv) by (nonlinear_arith);
    assert(2 * (2 * sv) == 4 * sv && m * (2 * sv) == (2 * m) * sv) by (nonlinear_arith);
    if (e + d).finite() {
        lemma_exit(w, ev, sv, xv, dv, dv, (e + d).value(), 2, true);
    }
    if (e + t).finite() {
        lemma_exit(w, ev, sv, xv, dv, tv, (e + t).value(), m, true);
    }
}

/// A price and a distance: sum and difference are on either side, and close.
proof fn lemma_step(e: Real, d: Real)
    requires
        Real::whole(0) <= e,
        e.finite(),
        Real::whole(0) <= d,
        d.finite(),
    ensures
        e <= e + d,
        e - d <= e,
        (e - d).finite(),
        size((e - d).value() - (e.value() - d.value())) * PARTS <= e.value() + d.value(),
        (e + d).finite() ==> size((e + d).value() - (e.value() + d.value())) * PARTS <= e.value()
            + d.value(),
{
    lemma_whole(0);
    assert(0 * pow2(1074) == 0);
    lemma_add_not_negative(e, d);
    lemma_add_grows(e, d);
    lemma_subtracts(e, d);
    if (e + d).finite() {
        lemma_add_close(e, d);
    }
}

/// Every leg of an order has its stop and its target on their sides of the entry: a
/// long leg the stop below and the target above, a short leg the other way round.
pub proof fn stops_and_targets_are_on_their_sides(
    order: ComboOrder,
    dists: Seq<AssetDistribution>,
    nav: Real,
    c: PortfolioConstraints,
    cfg: ComboConfig,
)
    requires
        is_order(order, dists, nav, c, cfg),
        dists.len() <= usize::MAX,
        forall|i: int| 0 <= i < dists.len() ==> is_quoted(#[trigger] dists[i]),
    ensures
        forall|i: int|
            0 <= i < order.legs@.len() ==> exits_are_on_their_sides(#[trigger] order.legs@[i]),
{
    assert forall|i: int| 0 <= i < order.legs@.len() implies exits_are_on_their_sides(
        #[trigger] order.legs@[i],
    ) by {
        exits_are_multiples_of_the_deviation(order, dists, nav, c, cfg, i);
    }
}

/// The exits of a leg are multiples of its asset's predictive deviation away from the
/// entry, up to rounding: the stop two of them, the target by the ratio of the leg's
/// regime further.
pub proof fn exits_are_multiples_of_the_deviation(
    order: ComboOrder,
    dists: Seq<AssetDistribution>,
    nav: Real,
    c: PortfolioConstraints,
    cfg: ComboConfig,
    i: int,
) -> (place: int)
    requires
        is_order(order, dists, nav, c, cfg),
        dists.len() <= usize::MAX,
        forall|i: int| 0 <= i < dists.len() ==> is_quoted(#[trigger] dists[i]),
        0 <= i < order.legs@.len(),
    ensures
        0 <= place < dists.len(),
        order.legs@[i].asset@ == dists[place].asset@,
        order.legs@[i].entry_price == dists[place].entry_price,
        exits_are_on_their_sides(order.legs@[i]),
        ({
            let leg = order.legs@[i];
            let s = dists[place].ensemble.predictive_std;
            let long = leg.direction == Direction::Long;
            let ratio = twice_the_ratio(leg.regime_label@);
            &&& leg.stop_loss.finite() ==> is_moved_by(
                leg.stop_loss,
                leg.entry_price,
                s,
                if long {
                    -4
                } else {
                    4
                },
            )
            &&& leg.take_profit.finite() ==> is_moved_by(
                leg.take_profit,
                leg.entry_price,
                s,
                if long {
                    2 * ratio
                } else {
                    -2 * ratio
                },
            )
        }),
{
    let xs = chosen(dists, nav, c, cfg);
    lemma_chosen_places(dists, nav, c, cfg);
    let place = xs[i].place as int;
    let ad = dists[place];
    assert(is_quoted(ad));
    let leg = order.legs@[i];
    lemma_whole(2);
    lemma_whole(3);
    lemma_three_halves();
    lemma_exits(ad, Real::whole(3), 6);
    lemma_exits(ad, Real::whole(2), 4);
    lemma_exits(ad, Real::ratio(3, 2), 3);
    place
}

/// Every leg is of an asset whose ensemble is confident enough and has a direction,
/// and it grows enough to be worth it.
pub proof fn legs_are_worth_it(
    order: ComboOrder,
    dists: Seq<AssetDistribution>,
    nav: Real,
    c: PortfolioConstraints,
    cfg: ComboConfig,
    i: int,
) -> (place: int)
    requires
        is_order(order, dists, nav, c, cfg),
        dists.len() <= usize::MAX,
        0 <= i < order.legs@.len(),
    ensures
        0 <= place < dists.len(),
        order.legs@[i].asset@ == dists[place].asset@,
        order.legs@[i].entry_price == dists[place].entry_price,
        order.legs@[i].confidence == dists[place].ensemble.confidence,
        order.legs@[i].confidence > Real::ratio(55, 100),
        order.legs@[i].confidence >= c.min_confidence,
        (dists[place].ensemble.p_up - dists[place].ensemble.p_down).abs() >= Real::ratio(5, 100),
        !(order.legs@[i].expected_log_growth < cfg.min_leg_elg),
        !(nav < Real::whole(1)),
{
    lemma_chosen_places(dists, nav, c, cfg);
    let x = chosen(dists, nav, c, cfg)[i];
    x.place as int
}

/// The size of a leg is its fraction of the net asset value, up to rounding.
pub proof fn leg_size_is_its_share(
    order: ComboOrder,
    dists: Seq<AssetDistribution>,
    nav: Real,
    c: PortfolioConstraints,
    cfg: ComboConfig,
    i: int,
)
    requires
        is_order(order, dists, nav, c, cfg),
        0 <= i < order.legs@.len(),
        Real::whole(0) <= order.legs@[i].position_fraction,
        Real::whole(1) <= nav,
        order.legs@[i].position_size_usd.finite(),
    ensures
        ({
            let leg = order.legs@[i];
            let (u, n, p) = (
                leg.position_size_usd.value(),
                nav.value(),
                leg.position_fraction.value(),
            );
            size(u * pow2(1074) - n * p) * PARTS <= n * p + pow2(1074) * BINADE
        }),
{
    lemma_whole(0);
    lemma_whole(1);
    lemma_pow2_pos(1074);
    assert(0 * pow2(1074) == 0 && 1 * pow2(1074) == pow2(1074));
    lemma_mul_close(nav, order.legs@[i].position_fraction);
}

/// Between one and the cap, the leverage of a leg is its fraction times the cap, up
/// to rounding; at one the fraction is too small for more.
pub proof fn leg_leverage_grows_with_its_share(
    order: ComboOrder,
    dists: Seq<AssetDistribution>,
    nav: Real,
    c: PortfolioConstraints,
    cfg: ComboConfig,
    i: int,
)
    requires
        is_order(order, dists, nav, c, cfg),
        0 <= i < order.legs@.len(),
        Real::whole(0) <= order.legs@[i].position_fraction,
        order.legs@[i].position_fraction <= Real::whole(1),
        Real::whole(1) <= c.max_leverage,
        c.max_leverage.finite(),
    ensures
        ({
            let leg = order.legs@[i];
            let (l, p, m) = (
                leg.leverage.value(),
                leg.position_fraction.value(),
                c.max_leverage.value(),
            );
            let w = pow2(1074) as int;
            &&& Real::whole(1) <= leg.leverage && leg.leverage <= c.max_leverage
            &&& leg.leverage > Real::whole(1) ==> size(l * w - p * m) * PARTS <= p * m + w * BINADE
            &&& leg.leverage <= Real::whole(1) ==> p * m * (PARTS - 1) <= w * w * PARTS + w * BINADE
        }),
{
    let leg = order.legs@[i];
    let (x, m, one) = (leg.position_fraction, c.max_leverage, Real::whole(1));
    lemma_whole(0);
    lemma_whole(1);
    let w = pow2(1074) as int;
    lemma_pow2_pos(1074);
    assert(0 * w == 0 && 1 * w == w);
    lemma_order_key(x, one);
    lemma_zero_value(x);
    lemma_mul_commutes(x, m);
    lemma_mul_shrinks(m, x);
    let y = x * m;
    lemma_mul_close(x, m);
    let (yv, p, v) = (y.value(), x.value(), m.value());
    if leg.leverage <= one {
        assert(yv <= w);
        assert(p * v * (PARTS - 1) <= w * w * PARTS + w * BINADE) by (nonlinear_arith)
            requires
                size(yv * w - p * v) * PARTS <= p * v + w * BINADE,
                yv <= w,
                w > 0,
                p >= 0,
                v >= 0,
        ;
    }
}

/// The best fraction times the second moment of the distribution is the Kelly multiple
/// of its mean, up to rounding, wherever no turnover is penalised and the position
/// limit does not bind.
pub proof fn fraction_is_a_kelly_fraction(
    dist: EnsembleDistribution,
    current: Real,
    tc_bps: Real,
    c: PortfolioConstraints,
)
    requires
        c.turnover_penalty.zero(),
        (tc_bps * Real::ratio(1, 10_000)).finite(),
        current.finite(),
        c.kelly_fraction.finite(),
        dist.predictive_mean.finite(),
        (dist.predictive_std * dist.predictive_std + dist.predictive_mean
            * dist.predictive_mean).finite(),
        dist.predictive_std * dist.predictive_std + dist.predictive_mean * dist.predictive_mean
            > Real::ratio(1, 1_000_000_000_000_000),
        best_fraction(dist, current, tc_bps, c).finite(),
        c.max_position_fraction.neg() < best_fraction(dist, current, tc_bps, c),
        best_fraction(dist, current, tc_bps, c) < c.max_position_fraction,
        (dist.predictive_mean / (dist.predictive_std * dist.predictive_std + dist.predictive_mean
            * dist.predictive_mean)).finite(),
    ensures
        ({
            let moment = (dist.predictive_std * dist.predictive_std + dist.predictive_mean
                * dist.predictive_mean).value();
            let (r, k, mu, w) = (
                best_fraction(dist, current, tc_bps, c).value(),
                c.kelly_fraction.value(),
                dist.predictive_mean.value(),
                pow2(1074) as int,
            );
            size(r * moment - k * mu) * w * PARTS <= 3 * (size(k * mu) * w) + (2 * size(k) + w)
                * size(moment) * BINADE
        }),
{
    let mu = dist.predictive_mean;
    let d = dist.predictive_std * dist.predictive_std + mu * mu;
    let q = mu / d;
    let k = c.kelly_fraction * q;
    let r = best_fraction(dist, current, tc_bps, c);
    let tc = tc_bps * Real::ratio(1, 10_000);
    lemma_whole(0);
    lemma_whole(1);
    assert(0 * pow2(1074) == 0);
    assert(Real::whole(0) <= Real::ratio(1, 1_000_000_000_000_000)) by {
        lemma_whole_below_ratio(0, 1, 1_000_000_000_000_000);
    }
    assert(!k.nan()) by {
        reveal(Real::spec_mul);
        lemma_round_bound(mag_units(c.kelly_fraction.mag()) * mag_units(q.mag()), pow2(1074));
    }
    let sg = (k - current).signum();
    let pen = c.turnover_penalty * sg * tc;
    assert((k - current).nan() ==> false) by {
        reveal(Real::spec_add);
        let s = k.value() - current.value();
        lemma_round_bound(s as nat, 1);
        lemma_round_bound((-s) as nat, 1);
    }
    assert(sg.finite());
    lemma_times_zero(sg, c.turnover_penalty);
    lemma_times_zero(tc, c.turnover_penalty * sg);
    assert(pen.zero());
    lemma_zero_value(pen);
    lemma_plus_zero(k, pen.neg());
    assert(r == k - pen);
    assert(r.value() == k.value());
    lemma_order_key(r, k);
    assert(k.finite());
    lemma_scaled_quotient(c.kelly_fraction, mu, d);
}

/// Mirror images: a distribution and a holding with their signs flipped have the best
/// fraction with its sign flipped.
pub proof fn mirrored_distribution_has_mirrored_fraction(
    a: EnsembleDistribution,
    b: EnsembleDistribution,
    current: Real,
    tc_bps: Real,
    c: PortfolioConstraints,
)
    requires
        b.predictive_mean == a.predictive_mean.neg(),
        b.predictive_std == a.predictive_std,
        c.turnover_penalty.zero(),
        (tc_bps * Real::ratio(1, 10_000)).finite(),
        current.finite(),
        c.kelly_fraction.finite(),
        a.predictive_mean.finite(),
        a.predictive_std.finite(),
        c.max_position_fraction.neg() <= c.max_position_fraction,
        best_fraction(a, current, tc_bps, c).finite(),
        best_fraction(b, current.neg(), tc_bps, c).finite(),
    ensures
        best_fraction(b, current.neg(), tc_bps, c).value() == -best_fraction(
            a,
            current,
            tc_bps,
            c,
        ).value(),
{
    let (x, y) = (
        lemma_plain_fraction(a, current, tc_bps, c),
        lemma_plain_fraction(b, current.neg(), tc_bps, c),
    );
    let mu = a.predictive_mean;
    lemma_zero_value(mu);
    assert(mu.neg() * mu.neg() == mu * mu) by {
        reveal(Real::spec_mul);
    }
    let d = a.predictive_std * a.predictive_std + mu * mu;
    lemma_whole(0);
    assert(0 * pow2(1074) == 0);
    lemma_whole_below_ratio(0, 1, 1_000_000_000_000_000);
    if d > Real::ratio(1, 1_000_000_000_000_000) {
        assert(!(mu / d).nan()) by {
            reveal(Real::spec_div);
            lemma_zero_value(d);
            lemma_round_bound(mag_units(mu.mag()) * pow2(1074), mag_units(d.mag()));
        }
        lemma_negated_term(mu, d);
        let q = mu / d;
        if q.finite() {
            assert(!(c.kelly_fraction * q).nan()) by {
                reveal(Real::spec_mul);
                lemma_round_bound(mag_units(c.kelly_fraction.mag()) * mag_units(q.mag()), pow2(1074));
            }
            lemma_negated_factor(c.kelly_fraction, q);
            lemma_zero_value(c.kelly_fraction * q);
        } else {
            reveal(Real::spec_mul);
        }
    } else {
        lemma_zero_value(Real::whole(0));
        lemma_times_zero(c.kelly_fraction, Real::whole(0));
    }
    lemma_zero_value(c.max_position_fraction);
}

/// Without a penalty the best fraction is the Kelly fraction moved into the limits.
proof fn lemma_plain_fraction(
    dist: EnsembleDistribution,
    current: Real,
    tc_bps: Real,
    c: PortfolioConstraints,
) -> (k: Real)
    requires
        c.turnover_penalty.zero(),
        (tc_bps * Real::ratio(1, 10_000)).finite(),
        current.finite(),
        best_fraction(dist, current, tc_bps, c).finite(),
        c.max_position_fraction.neg() <= c.max_position_fraction,
    ensures
        k == c.kelly_fraction * full_kelly(dist.predictive_mean, dist.predictive_variance()),
        !k.nan(),
        ({
            let (r, v, m) = (
                best_fraction(dist, current, tc_bps, c).value(),
                k.value(),
                c.max_position_fraction.value(),
            );
            r == if v < -m {
                -m
            } else if v > m {
                m
            } else {
                v
            }
        }),
{
    let k = c.kelly_fraction * full_kelly(dist.predictive_mean, dist.predictive_variance());
    let tc = tc_bps * Real::ratio(1, 10_000);
    lemma_whole(1);
    let sg = (k - current).signum();
    let pen = c.turnover_penalty * sg * tc;
    assert(!k.nan()) by {
        if k.nan() {
            reveal(Real::spec_add);
            reveal(Real::spec_mul);
        }
    }
    assert(!(k - current).nan()) by {
        reveal(Real::spec_add);
        let s = k.value() - current.value();
        lemma_round_bound(s as nat, 1);
        lemma_round_bound((-s) as nat, 1);
    }
    lemma_times_zero(sg, c.turnover_penalty);
    lemma_times_zero(tc, c.turnover_penalty * sg);
    lemma_zero_value(pen);
    lemma_plus_zero(k, pen.neg());
    lemma_zero_value(c.max_position_fraction);
    k
}

/// The gross exposure of an order is the sum of its legs' fractions, and the net
/// exposure that of the long ones less that of the short ones, up to rounding; the net
/// exposure is never larger than the gross one.
pub proof fn exposures_are_sums_of_legs(
    order: ComboOrder,
    dists: Seq<AssetDistribution>,
    nav: Real,
    c: PortfolioConstraints,
    cfg: ComboConfig,
)
    requires
        is_order(order, dists, nav, c, cfg),
        forall|i: int|
            0 <= i < order.legs@.len() ==> Real::whole(0) <= (
            #[trigger] order.legs@[i]).position_fraction,
        order.gross_exposure_fraction.finite(),
    ensures
        ({
            let n = order.legs@.len();
            let all = order.legs@.map_values(|l: OrderLeg| l.position_fraction);
            let signed = order.legs@.map_values(
                |l: OrderLeg|
                    if l.direction == Direction::Long {
                        l.position_fraction
                    } else {
                        l.position_fraction.neg()
                    },
            );
            let g = order.gross_exposure_fraction.value();
            &&& size(g - exact_sum(all)) * PARTS <= n * (4 * g)
            &&& size(order.net_exposure_fraction.value() - exact_sum(signed)) * PARTS <= n * (4 * g)
            &&& size(order.net_exposure_fraction.value()) <= g
        }),
{
    let all = order.legs@.map_values(|l: OrderLeg| l.position_fraction);
    let signed = order.legs@.map_values(
        |l: OrderLeg|
            if l.direction == Direction::Long {
                l.position_fraction
            } else {
                l.position_fraction.neg()
            },
    );
    assert(order.legs@.map_values(|l: OrderLeg| signed_fraction(l)) =~= signed);
    lemma_whole(0);
    assert(0 * pow2(1074) == 0);
    assert forall|i: int| 0 <= i < all.len() implies Real::whole(0) <= #[trigger] all[i] by {
        assert(Real::whole(0) <= order.legs@[i].position_fraction);
    }
    lemma_magnitude_sum(all);
    assert(sizes(signed) =~= sizes(all)) by {
        assert forall|i: int| 0 <= i < all.len() implies sizes(signed)[i] == sizes(all)[i] by {
            lemma_zero_value(all[i]);
        }
    }
    lemma_sum_near(all);
    lemma_sum_near(signed);
}

/// The sum of numbers that are not negative is that of their magnitudes.
proof fn lemma_magnitude_sum(a: Seq<Real>)
    requires
        forall|i: int| 0 <= i < a.len() ==> Real::whole(0) <= #[trigger] a[i],
    ensures
        sum_of_seq(a).value() == sum_of_seq(sizes(a)).value(),
        !sum_of_seq(a).nan(),
        !sum_of_seq(sizes(a)).nan(),
        sum_of_seq(a).finite() <==> sum_of_seq(sizes(a)).finite(),
        0 <= sum_of_seq(a).value(),
    decreases a.len(),
{
    lemma_whole(0);
    assert(0 * pow2(1074) == 0);
    lemma_units_zero(0);
    if a.len() > 0 {
        let t = a.drop_last();
        assert forall|i: int| 0 <= i < t.len() implies Real::whole(0) <= #[trigger] t[i] by {
            assert(Real::whole(0) <= a[i]);
        }
        lemma_magnitude_sum(t);
        let x = a.last();
        assert(Real::whole(0) <= a[a.len() - 1]);
        lemma_zero_value(x);
        assert(sizes(a).drop_last() =~= sizes(t));
        let (p, q) = (sum_of_seq(t), sum_of_seq(sizes(t)));
        lemma_add_not_negative(p, x);
        lemma_add_not_negative(q, x.abs());
        lemma_add_not_negative(q, x);
        lemma_add_monotone(p, q, x);
        lemma_add_monotone(q, p, x);
        lemma_add_commutes(q, x);
        lemma_add_commutes(q, x.abs());
        lemma_add_monotone(x, x.abs(), q);
        lemma_add_monotone(x.abs(), x, q);
        lemma_order_key(p + x, q + x.abs());
    }
}

} // verus!
