//! What an evaluation says of costs, prices and fills.
use vstd::arithmetic::power2::*;
use vstd::prelude::*;

use crate::execution::model::{evaluation, ExecutionMetrics, ExecutionModel};
use crate::num::drift::{
    lemma_add_close, lemma_at_most_one, lemma_div_close, lemma_mul_close, size, PARTS,
};
use crate::num::elementary::{exp_is_monotone, exp_of, Oracle};
use crate::num::magnitude::lemma_units_zero;
use crate::num::model::BINADE;
use crate::num::ops::lemma_order_key;
use crate::num::order::{
    lemma_add_commutes, lemma_add_grows, lemma_add_monotone, lemma_add_not_negative,
    lemma_div_antitone, lemma_div_monotone, lemma_mul_monotone, lemma_neg_order, lemma_whole,
    lemma_whole_order,
};
use crate::num::rules::{
    lemma_between, lemma_half_of, lemma_moved, lemma_over_itself, lemma_over_one, lemma_root_monotone,
    lemma_root_near, lemma_root_of_one, lemma_same_value, lemma_times_one, lemma_zero_over,
    lemma_zero_value,
};
use crate::num::Real;
use crate::signals::generator::{Direction, TradeSignal};

verus! {

/// The signal is not older than the model allows.
pub open spec fn is_fresh(m: ExecutionModel, signal: TradeSignal, now_ms: u64) -> bool {
    now_ms - signal.generated_at_ms <= m.max_signal_age_ms
}

/// Permanent impact is the coefficient times the share of the daily volume that is
/// traded: impact times volume is coefficient times notional, up to rounding.
pub proof fn permanent_impact_is_proportional(
    f: Oracle,
    m: ExecutionModel,
    signal: TradeSignal,
    now_ms: u64,
    adv: Real,
    spread: Real,
    depth: Real,
)
    requires
        is_fresh(m, signal, now_ms),
        Real::whole(1) <= adv,
        adv.finite(),
        Real::whole(0) <= m.impact.eta,
        Real::whole(0) <= signal.position_size_usd * signal.leverage,
        evaluation(f, m, signal, now_ms, adv, spread, depth).permanent_impact_pct.finite(),
        ((signal.position_size_usd * signal.leverage) / adv).finite(),
    ensures
        ({
            let impact = evaluation(
                f,
                m,
                signal,
                now_ms,
                adv,
                spread,
                depth,
            ).permanent_impact_pct.value();
            let notional = (signal.position_size_usd * signal.leverage).value();
            let (eta, w) = (m.impact.eta.value(), pow2(1074));
            size(impact * adv.value() - eta * notional) * w * PARTS <= 3 * (eta * notional * w) + (2
                * eta + w) * adv.value() * BINADE
        }),
{
    let notional = signal.position_size_usd * signal.leverage;
    let (q, eta) = (notional / adv, m.impact.eta);
    let p = evaluation(f, m, signal, now_ms, adv, spread, depth).permanent_impact_pct;
    lemma_whole(0);
    lemma_whole(1);
    let w = pow2(1074) as int;
    lemma_pow2_pos(1074);
    assert(0 * w == 0 && 1 * w == w);
    assert(p == eta * q);
    lemma_div_close(notional, adv);
    lemma_mul_close(eta, q);
    let (pv, av, ev, nv, qv) = (p.value(), adv.value(), eta.value(), notional.value(), q.value());
    let (e1, e2) = (qv * av - nv * w, pv * w - ev * qv);
    let d = pv * av - ev * nv;
    assert(d * w == ev * e1 + e2 * av) by (nonlinear_arith)
        requires
            d == pv * av - ev * nv,
            e1 == qv * av - nv * w,
            e2 == pv * w - ev * qv,
    ;
    assert(ev * (qv * av) == ev * nv * w + ev * e1) by (nonlinear_arith)
        requires
            e1 == qv * av - nv * w,
    ;
    let (x, y) = (ev * e1, e2 * av);
    assert(size(x) * PARTS <= ev * nv * w + ev * av * BINADE) by (nonlinear_arith)
        requires
            x == ev * e1,
            size(e1) * PARTS <= nv * w + av * BINADE,
            ev >= 0,
    ;
    assert(size(y) * PARTS <= ev * (qv * av) + w * av * BINADE) by (nonlinear_arith)
        requires
            y == e2 * av,
            size(e2) * PARTS <= ev * qv + w * BINADE,
            av >= 0,
    ;
    assert(size(x) <= size(x) * PARTS) by (nonlinear_arith);
    assert(size(d) * w == size(d * w)) by (nonlinear_arith)
        requires
            w > 0,
    ;
    assert((2 * ev + w) * av * BINADE == 2 * (ev * av * BINADE) + w * av * BINADE) by (nonlinear_arith);
    assert(size(d * w) <= size(x) + size(y));
}

/// A signal of the whole daily volume has the coefficients as its impacts: the
/// permanent one, and the temporary one times the spread.
pub proof fn whole_volume_has_full_impact(
    f: Oracle,
    m: ExecutionModel,
    signal: TradeSignal,
    now_ms: u64,
    adv: Real,
    spread: Real,
    depth: Real,
)
    requires
        is_fresh(m, signal, now_ms),
        Real::whole(1) <= adv,
        adv.finite(),
        signal.position_size_usd * signal.leverage == adv,
        !m.impact.eta.nan(),
        Real::ratio(1, 10_000) <= spread,
        !(m.impact.kappa * spread).nan(),
    ensures
        ({
            let r = evaluation(f, m, signal, now_ms, adv, spread, depth);
            &&& r.permanent_impact_pct == m.impact.eta
            &&& r.temporary_impact_pct == m.impact.kappa * spread
        }),
{
    lemma_whole(1);
    lemma_pow2_pos(1074);
    assert(1 * pow2(1074) == pow2(1074));
    lemma_over_itself(adv);
    lemma_times_one(m.impact.eta);
    lemma_times_one(m.impact.kappa * spread);
    lemma_root_of_one();
}

/// Of two markets the thinner one never has the smaller impact, permanent or
/// temporary, for the same positive notional.
pub proof fn thinner_market_has_no_less_impact(
    f: Oracle,
    m: ExecutionModel,
    signal: TradeSignal,
    now_ms: u64,
    adv: Real,
    more: Real,
    spread: Real,
    depth: Real,
)
    requires
        is_fresh(m, signal, now_ms),
        adv <= more,
        more.finite(),
        Real::whole(0) <= m.impact.eta,
        m.impact.eta.finite(),
        Real::whole(0) <= m.impact.kappa * spread.max(Real::ratio(1, 10_000)),
        (m.impact.kappa * spread.max(Real::ratio(1, 10_000))).finite(),
        Real::whole(0) < signal.position_size_usd * signal.leverage,
        (signal.position_size_usd * signal.leverage).finite(),
    ensures
        ({
            let thin = evaluation(f, m, signal, now_ms, adv, spread, depth);
            let deep = evaluation(f, m, signal, now_ms, more, spread, depth);
            &&& Real::whole(0) <= deep.permanent_impact_pct
            &&& deep.permanent_impact_pct <= thin.permanent_impact_pct
            &&& Real::whole(0) <= deep.temporary_impact_pct
            &&& deep.temporary_impact_pct <= thin.temporary_impact_pct
        }),
{
    let one = Real::whole(1);
    lemma_whole(0);
    lemma_whole(1);
    lemma_whole_order(0, 1);
    assert(0 * pow2(1074) == 0);
    let n = signal.position_size_usd * signal.leverage;
    let (a, b) = (adv.max(one), more.max(one));
    lemma_order_key(adv, more);
    lemma_div_antitone(n, a, b);
    lemma_div_monotone(n, n, b);
    lemma_div_monotone(n, n, a);
    let (p, q) = (n / b, n / a);
    assert(q.finite()) by {
        lemma_div_antitone(n, one, a);
        lemma_over_one(n);
        lemma_between(Real::whole(0), q, n);
    }
    lemma_mul_monotone(p, q, m.impact.eta);
    lemma_root_monotone(p, q);
    lemma_mul_monotone(p.sqrt(), q.sqrt(), m.impact.kappa * spread.max(Real::ratio(1, 10_000)));
}

/// Of two signals the larger one never has the smaller impact or the smaller cost,
/// nor the larger probability of a fill.
pub proof fn larger_signal_costs_no_less(
    f: Oracle,
    m: ExecutionModel,
    small: TradeSignal,
    large: TradeSignal,
    now_ms: u64,
    adv: Real,
    spread: Real,
    depth: Real,
)
    requires
        is_fresh(m, small, now_ms),
        is_fresh(m, large, now_ms),
        Real::whole(0) <= small.position_size_usd * small.leverage,
        small.position_size_usd * small.leverage <= large.position_size_usd * large.leverage,
        (large.position_size_usd * large.leverage).finite(),
        Real::whole(1) <= adv,
        adv.finite(),
        Real::whole(0) <= spread * Real::ratio(1, 2),
        Real::whole(0) <= m.impact.eta,
        m.impact.eta.finite(),
        Real::whole(0) <= m.impact.kappa * spread.max(Real::ratio(1, 10_000)),
        (m.impact.kappa * spread.max(Real::ratio(1, 10_000))).finite(),
        Real::whole(0) < depth,
        depth.finite(),
        exp_is_monotone(f),
    ensures
        ({
            let s = evaluation(f, m, small, now_ms, adv, spread, depth);
            let l = evaluation(f, m, large, now_ms, adv, spread, depth);
            &&& s.permanent_impact_pct <= l.permanent_impact_pct
            &&& s.temporary_impact_pct <= l.temporary_impact_pct
            &&& s.total_cost_pct <= l.total_cost_pct
            &&& l.fill_probability <= s.fill_probability
        }),
{
    let one = Real::whole(1);
    lemma_whole(0);
    lemma_whole(1);
    lemma_whole_order(0, 1);
    lemma_pow2_pos(1074);
    assert(0 * pow2(1074) == 0 && 1 * pow2(1074) == pow2(1074));
    let a = small.position_size_usd * small.leverage;
    let b = large.position_size_usd * large.leverage;
    lemma_order_key(a, b);
    lemma_div_monotone(a, b, adv);
    let (p, q) = (a / adv, b / adv);
    assert(q.finite()) by {
        if b.value() == 0 {
            lemma_zero_value(b);
            lemma_zero_over(b, adv);
        } else {
            lemma_div_antitone(b, one, adv);
            lemma_over_one(b);
            lemma_between(Real::whole(0), q, b);
        }
    }
    lemma_mul_monotone(p, q, m.impact.eta);
    lemma_root_monotone(p, q);
    lemma_mul_monotone(p.sqrt(), q.sqrt(), m.impact.kappa * spread.max(Real::ratio(1, 10_000)));
    let h = spread * Real::ratio(1, 2);
    let s = evaluation(f, m, small, now_ms, adv, spread, depth);
    let l = evaluation(f, m, large, now_ms, adv, spread, depth);
    let (ps, pl) = (s.permanent_impact_pct, l.permanent_impact_pct);
    let (ts, tl) = (s.temporary_impact_pct, l.temporary_impact_pct);
    lemma_add_not_negative(h, ps);
    lemma_add_not_negative(h, pl);
    lemma_add_commutes(h, ps);
    lemma_add_commutes(h, pl);
    lemma_add_monotone(ps, pl, h);
    lemma_add_not_negative(h + ps, ts);
    lemma_add_not_negative(h + pl, tl);
    lemma_add_not_negative(h + pl, ts);
    lemma_add_monotone(h + ps, h + pl, ts);
    lemma_add_commutes(h + pl, ts);
    lemma_add_commutes(h + pl, tl);
    lemma_add_monotone(ts, tl, h + pl);
    // A larger size is harder to fill.
    let (x, y) = (a.max(one), b.max(one));
    lemma_div_antitone(depth, x, y);
    lemma_fill_grows(f, depth / y, depth / x);
}

/// Better odds fill no less, and with a probability.
pub(crate) proof fn lemma_fill_grows(f: Oracle, a: Real, b: Real)
    requires
        exp_is_monotone(f),
        a <= b,
    ensures
        ({
            let one = Real::whole(1);
            let (x, y) = (a - one, b - one);
            &&& one / (one + exp_of(f, x.neg())) <= one / (one + exp_of(f, y.neg()))
            &&& Real::whole(0) <= one / (one + exp_of(f, x.neg()))
            &&& one / (one + exp_of(f, y.neg())) <= one
        }),
{
    let one = Real::whole(1);
    lemma_whole(0);
    lemma_whole(1);
    lemma_whole_order(0, 1);
    lemma_pow2_pos(1074);
    assert(0 * pow2(1074) == 0 && 1 * pow2(1074) == pow2(1074));
    let (x, y) = (a - one, b - one);
    lemma_number_less_one(a);
    lemma_number_less_one(b);
    lemma_add_monotone(a, b, one.neg());
    lemma_neg_order(x, y);
    let (u, v) = (exp_of(f, x.neg()), exp_of(f, y.neg()));
    assert(v <= u);
    assert(Real::whole(0) <= v);
    assert(Real::whole(0) <= u);
    lemma_add_not_negative(one, u);
    lemma_add_not_negative(one, v);
    lemma_add_commutes(one, u);
    lemma_add_commutes(one, v);
    lemma_add_monotone(v, u, one);
    lemma_add_grows(one, u);
    lemma_add_grows(one, v);
    let (p, q) = (one + v, one + u);
    lemma_div_monotone(one, one, p);
    lemma_div_monotone(one, one, q);
    lemma_at_most_one(one, p);
    if q.finite() {
        lemma_div_antitone(one, p, q);
    } else {
        reveal(Real::spec_div);
        lemma_units_zero(0);
    }
}

proof fn lemma_number_less_one(a: Real)
    requires
        !a.nan(),
    ensures
        !(a - Real::whole(1)).nan(),
{
    let one = Real::whole(1);
    lemma_whole(1);
    if a.finite() {
        crate::num::rules::lemma_difference_sign(a, one);
    } else {
        reveal(Real::spec_add);
    }
}

/// A deeper book never has the smaller probability of a fill.
pub proof fn deeper_book_fills_no_less(
    f: Oracle,
    m: ExecutionModel,
    signal: TradeSignal,
    now_ms: u64,
    adv: Real,
    spread: Real,
    depth: Real,
    deeper: Real,
)
    requires
        is_fresh(m, signal, now_ms),
        Real::whole(0) <= depth,
        depth <= deeper,
        deeper.finite(),
        exp_is_monotone(f),
    ensures
        ({
            let a = evaluation(f, m, signal, now_ms, adv, spread, depth).fill_probability;
            let b = evaluation(f, m, signal, now_ms, adv, spread, deeper).fill_probability;
            Real::whole(0) <= a && a <= b && b <= Real::whole(1)
        }),
{
    lemma_whole(0);
    lemma_whole(1);
    lemma_pow2_pos(1074);
    assert(0 * pow2(1074) == 0 && 1 * pow2(1074) == pow2(1074));
    let n = (signal.position_size_usd * signal.leverage).max(Real::whole(1));
    lemma_div_monotone(depth, deeper, n);
    lemma_fill_grows(f, depth / n, deeper / n);
}

/// A notional as large as the book is deep is filled with probability one half.
pub proof fn whole_book_is_half_filled(
    f: Oracle,
    m: ExecutionModel,
    signal: TradeSignal,
    now_ms: u64,
    adv: Real,
    spread: Real,
    depth: Real,
)
    requires
        is_fresh(m, signal, now_ms),
        Real::whole(1) <= depth,
        depth.finite(),
        signal.position_size_usd * signal.leverage == depth,
        exp_of(f, Real::whole(0)) == Real::whole(1),
        exp_of(f, Real::whole(0).neg()) == Real::whole(1),
    ensures
        evaluation(f, m, signal, now_ms, adv, spread, depth).fill_probability == Real::ratio(1, 2),
{
    let one = Real::whole(1);
    lemma_whole(1);
    lemma_whole(2);
    lemma_pow2_pos(1074);
    assert(1 * pow2(1074) == pow2(1074));
    lemma_over_itself(depth);
    crate::num::drift::lemma_cancels(one);
    assert(one + one == Real::whole(2)) by {
        crate::num::drift::lemma_add_mag(one, one);
        crate::num::ops::lemma_round_exact(Real::whole(2).mag());
        crate::num::order::lemma_round_bound(2 * pow2(1074), 1);
        lemma_same_value(one + one, Real::whole(2));
    }
}

/// What a signal is expected to fill is its own size, without leverage, times the
/// probability of a fill, up to rounding, and never more than its size.
pub proof fn expected_fill_is_probable_size(
    f: Oracle,
    m: ExecutionModel,
    signal: TradeSignal,
    now_ms: u64,
    adv: Real,
    spread: Real,
    depth: Real,
)
    requires
        is_fresh(m, signal, now_ms),
        Real::whole(0) <= signal.position_size_usd,
        signal.position_size_usd.finite(),
        Real::whole(0) <= depth,
        depth.finite(),
        exp_is_monotone(f),
    ensures
        ({
            let r = evaluation(f, m, signal, now_ms, adv, spread, depth);
            let (x, s, p) = (
                r.expected_fill_usd.value(),
                signal.position_size_usd.value(),
                r.fill_probability.value(),
            );
            &&& Real::whole(0) <= r.expected_fill_usd
            &&& r.expected_fill_usd <= signal.position_size_usd
            &&& size(x * pow2(1074) - s * p) * PARTS <= s * p + pow2(1074) * BINADE
        }),
{
    lemma_whole(0);
    lemma_whole(1);
    lemma_pow2_pos(1074);
    assert(0 * pow2(1074) == 0 && 1 * pow2(1074) == pow2(1074));
    deeper_book_fills_no_less(f, m, signal, now_ms, adv, spread, depth, depth);
    let p = evaluation(f, m, signal, now_ms, adv, spread, depth).fill_probability;
    lemma_order_key(p, Real::whole(1));
    lemma_zero_value(p);
    crate::num::drift::lemma_mul_shrinks(signal.position_size_usd, p);
    lemma_mul_close(signal.position_size_usd, p);
}

/// The temporary impact is the coefficient times the spread, at least a hundredth
/// of a percent, times a number whose square is the share of the daily volume that
/// is traded, up to rounding.
pub proof fn temporary_impact_is_a_root(
    f: Oracle,
    m: ExecutionModel,
    signal: TradeSignal,
    now_ms: u64,
    adv: Real,
    spread: Real,
    depth: Real,
) -> (q: Real)
    requires
        is_fresh(m, signal, now_ms),
        Real::whole(1) <= adv,
        adv.finite(),
        Real::ratio(1, 10_000) <= spread,
        Real::whole(0) <= signal.position_size_usd * signal.leverage,
        ((signal.position_size_usd * signal.leverage) / adv).finite(),
    ensures
        evaluation(f, m, signal, now_ms, adv, spread, depth).temporary_impact_pct == m.impact.kappa
            * spread * q,
        Real::whole(0) <= q,
        ({
            let (v, w) = (q.value() * q.value(), pow2(1074));
            let notional = (signal.position_size_usd * signal.leverage).value();
            size(v * adv.value() - notional * w * w) * PARTS <= 3 * (v * adv.value()) + notional * w
                * w + adv.value() * BINADE * w
        }),
{
    let n = signal.position_size_usd * signal.leverage;
    let x = n / adv;
    lemma_whole(0);
    lemma_whole(1);
    let w = pow2(1074) as int;
    lemma_pow2_pos(1074);
    assert(0 * w == 0 && 1 * w == w);
    lemma_div_close(n, adv);
    lemma_root_near(x);
    let q = x.sqrt();
    let (v, a, b) = (q.value() * q.value(), adv.value(), n.value());
    let (e1, e2) = (v - x.value() * w, x.value() * a - b * w);
    assert(v * a - b * w * w == e1 * a + e2 * w) by (nonlinear_arith)
        requires
            e1 == v - x.value() * w,
            e2 == x.value() * a - b * w,
    ;
    assert(size(e1 * a) * PARTS <= 3 * (v * a)) by (nonlinear_arith)
        requires
            size(e1) * PARTS <= 3 * v,
            a > 0,
    ;
    assert(size(e2 * w) * PARTS <= b * w * w + a * BINADE * w) by (nonlinear_arith)
        requires
            size(e2) * PARTS <= b * w + a * BINADE,
            w > 0,
    ;
    let (y, z) = (e1 * a, e2 * w);
    assert(size(y + z) * PARTS <= size(y) * PARTS + size(z) * PARTS) by (nonlinear_arith)
        requires
            size(y + z) <= size(y) + size(z),
    ;
    q
}

/// Cost and price in an evaluation are sound: nothing is negative and the terms of
/// the costs are finite.
pub open spec fn has_costs(r: ExecutionMetrics, spread: Real) -> bool {
    &&& Real::whole(0) <= spread && spread.finite()
    &&& Real::whole(0) <= r.permanent_impact_pct && r.permanent_impact_pct.finite()
    &&& Real::whole(0) <= r.temporary_impact_pct && r.temporary_impact_pct.finite()
}

/// The total cost is half the spread and both impacts, up to rounding.
pub proof fn total_cost_is_half_spread_and_impacts(
    f: Oracle,
    m: ExecutionModel,
    signal: TradeSignal,
    now_ms: u64,
    adv: Real,
    spread: Real,
    depth: Real,
)
    requires
        is_fresh(m, signal, now_ms),
        has_costs(evaluation(f, m, signal, now_ms, adv, spread, depth), spread),
        evaluation(f, m, signal, now_ms, adv, spread, depth).total_cost_pct.finite(),
    ensures
        ({
            let r = evaluation(f, m, signal, now_ms, adv, spread, depth);
            let twice = spread.value() + 2 * r.permanent_impact_pct.value() + 2
                * r.temporary_impact_pct.value();
            size(2 * r.total_cost_pct.value() - twice) * PARTS <= 12 * twice + PARTS
        }),
{
    let r = evaluation(f, m, signal, now_ms, adv, spread, depth);
    let (p, t) = (r.permanent_impact_pct, r.temporary_impact_pct);
    lemma_whole(0);
    assert(0 * pow2(1074) == 0);
    lemma_half_of(spread);
    let h = spread * Real::ratio(1, 2);
    let c = h + p;
    assert(r.total_cost_pct == c + t);
    lemma_add_not_negative(h, p);
    assert(c.finite()) by {
        if !c.finite() {
            reveal(Real::spec_add);
        }
    }
    lemma_add_close(h, p);
    lemma_add_close(c, t);
    let (hv, pv, tv, cv, kv) = (h.value(), p.value(), t.value(), c.value(), r.total_cost_pct.value());
    let (e1, e2, e3) = (2 * hv - spread.value(), cv - (hv + pv), kv - (cv + tv));
    assert(size(e2) <= hv + pv) by (nonlinear_arith)
        requires
            size(e2) * PARTS <= hv + pv,
            hv + pv >= 0,
    ;
    let d = 2 * kv - (spread.value() + 2 * pv + 2 * tv);
    assert(d == e1 + 2 * e2 + 2 * e3);
    assert(size(d) * PARTS <= size(e1) * PARTS + 2 * (size(e2) * PARTS) + 2 * (size(e3) * PARTS))
        by (nonlinear_arith)
        requires
            size(d) <= size(e1) + 2 * size(e2) + 2 * size(e3),
    ;
}

/// A long entry is dearer than the price, a short one cheaper, by half the spread
/// and the permanent impact, up to rounding.
pub proof fn entry_is_moved_against_the_signal(
    f: Oracle,
    m: ExecutionModel,
    signal: TradeSignal,
    now_ms: u64,
    adv: Real,
    spread: Real,
    depth: Real,
)
    requires
        is_fresh(m, signal, now_ms),
        has_costs(evaluation(f, m, signal, now_ms, adv, spread, depth), spread),
        Real::whole(0) <= signal.entry_price,
        signal.entry_price.finite(),
        (signal.entry_price * (spread * Real::ratio(1, 2) + evaluation(
            f,
            m,
            signal,
            now_ms,
            adv,
            spread,
            depth,
        ).permanent_impact_pct)).finite(),
        evaluation(f, m, signal, now_ms, adv, spread, depth).adjusted_entry_price.finite(),
        Real::whole(0) < signal.entry_price,
    ensures
        ({
            let r = evaluation(f, m, signal, now_ms, adv, spread, depth);
            let (a, p, w) = (
                r.adjusted_entry_price.value(),
                signal.entry_price.value(),
                pow2(1074) as int,
            );
            let twice = spread.value() + 2 * r.permanent_impact_pct.value();
            &&& signal.direction == Direction::Long ==> signal.entry_price <= r.adjusted_entry_price
                && size(2 * (a * w) - p * (2 * w + twice)) * PARTS <= p * (15 * twice + 5 * w) + 2
                * (w * PARTS)
            &&& signal.direction == Direction::Short ==> r.adjusted_entry_price
                <= signal.entry_price && size(2 * (a * w) - p * (2 * w - twice)) * PARTS <= p * (15
                * twice + 5 * w) + 2 * (w * PARTS)
        }),
{
    let r = evaluation(f, m, signal, now_ms, adv, spread, depth);
    let (price, q) = (signal.entry_price, r.permanent_impact_pct);
    lemma_whole(0);
    let w = pow2(1074) as int;
    lemma_pow2_pos(1074);
    lemma2_to64();
    lemma2_to64_rest();
    lemma_pow2_strictly_increases(53, 1074);
    assert(0 * w == 0);
    lemma_half_of(spread);
    let h = spread * Real::ratio(1, 2);
    let x = h + q;
    lemma_add_not_negative(h, q);
    assert(x.finite()) by {
        if !x.finite() {
            reveal(Real::spec_mul);
            lemma_zero_value(price);
        }
    }
    lemma_add_close(h, q);
    lemma_moved(price, x);
    let (hv, qv, xv, pv) = (h.value(), q.value(), x.value(), price.value());
    let (e1, e2) = (2 * hv - spread.value(), xv - (hv + qv));
    let y = spread.value() + 2 * qv;
    let d = 2 * xv - y;
    assert(size(d) * PARTS <= 3 * y + PARTS) by (nonlinear_arith)
        requires
            d == e1 + 2 * e2,
            size(e1) * PARTS <= spread.value() + PARTS,
            size(e2) * PARTS <= hv + qv,
            hv <= spread.value(),
            y == spread.value() + 2 * qv,
            qv >= 0,
            hv >= 0,
    ;
    assert(2 * xv <= 4 * y + 1) by (nonlinear_arith)
        requires
            d == 2 * xv - y,
            size(d) * PARTS <= 3 * y + PARTS,
            y >= 0,
    ;
    let a = r.adjusted_entry_price.value();
    let up = signal.direction == Direction::Long;
    let near = a * w - pv * (if up {
        w + xv
    } else {
        w - xv
    });
    assert(size(near) * PARTS <= 3 * (pv * xv) + pv * w + 2 * (w * BINADE));
    let target = if up {
        2 * w + y
    } else {
        2 * w - y
    };
    let t = 2 * (a * w) - pv * target;
    assert(t == 2 * near + (if up {
        pv * d
    } else {
        -(pv * d)
    })) by (nonlinear_arith)
        requires
            t == 2 * (a * w) - pv * target,
            near == a * w - pv * (if up { w + xv } else { w - xv }),
            target == if up { 2 * w + y } else { 2 * w - y },
            d == 2 * xv - y,
    ;
    assert(size(pv * d) * PARTS <= pv * (3 * y + PARTS)) by (nonlinear_arith)
        requires
            size(d) * PARTS <= 3 * y + PARTS,
            pv >= 0,
    ;
    let g = pv * d;
    assert(size(t) * PARTS <= 2 * (size(near) * PARTS) + size(g) * PARTS) by (nonlinear_arith)
        requires
            size(t) <= 2 * size(near) + size(g),
    ;
    assert(6 * (pv * xv) <= pv * (12 * y + 3)) by (nonlinear_arith)
        requires
            2 * xv <= 4 * y + 1,
            pv >= 0,
    ;
    assert(pv * (12 * y + 3) + 2 * (pv * w) + pv * (3 * y + PARTS) <= pv * (15 * y + 5 * w))
        by (nonlinear_arith)
        requires
            pv >= 0,
            w >= PARTS,
            PARTS >= 3,
    ;
}

/// Only the notional matters for cost and fill: how it is made up of size and
/// leverage does not.
pub proof fn notional_decides(
    f: Oracle,
    m: ExecutionModel,
    a: TradeSignal,
    b: TradeSignal,
    now_ms: u64,
    adv: Real,
    spread: Real,
    depth: Real,
)
    requires
        is_fresh(m, a, now_ms),
        is_fresh(m, b, now_ms),
        a.position_size_usd * a.leverage == b.position_size_usd * b.leverage,
    ensures
        ({
            let x = evaluation(f, m, a, now_ms, adv, spread, depth);
            let y = evaluation(f, m, b, now_ms, adv, spread, depth);
            &&& x.permanent_impact_pct == y.permanent_impact_pct
            &&& x.temporary_impact_pct == y.temporary_impact_pct
            &&& x.total_cost_pct == y.total_cost_pct
            &&& x.fill_probability == y.fill_probability
        }),
{
}

} // verus!
