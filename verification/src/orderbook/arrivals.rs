//! What the arrival model states of buys and sells.
use vstd::arithmetic::power2::{lemma_pow2_pos, pow2};
use vstd::prelude::*;

use crate::num::elementary::{exp_of, ln_of, Oracle};
use crate::num::ops::lemma_order_key;
use crate::num::order::{lemma_add_grows, lemma_mul_monotone, lemma_whole};
use crate::num::rules::{
    is_product, is_quotient, is_sum, lemma_difference_sign, lemma_finite_terms,
    lemma_operations_are_close, lemma_plus_zero, lemma_quotient_near, lemma_small_ratio,
    lemma_sum_over, lemma_times_zero, lemma_zero_over, near_ratio,
};
use crate::num::series::sum_of_seq;
use crate::num::Real;
use crate::orderbook::hawkes::{
    ascended, decayed, events_of, gradient, initial_params, likelihood, progress, seconds, Events,
    HawkesParams, HawkesProcess,
};

verus! {

/// The event at place `n` in time is a buy.
pub open spec fn is_buy_at(ev: Events, n: int) -> bool {
    ev.order[n] < ev.buys
}

/// How much of the excitation is left from one event to the next.
pub open spec fn decay_at(f: Oracle, ev: Events, beta: Real, n: int) -> Real {
    let before = if n == 0 {
        Real::whole(0)
    } else {
        ev.times[ev.order[n - 1] as int]
    };
    exp_of(f, beta.neg() * (ev.times[ev.order[n] as int] - before))
}

/// An event adds one to the decayed sum of its own side, and neither side adds to the other.
pub proof fn event_excites_its_side(f: Oracle, ev: Events, p: HawkesParams, n: nat)
    requires
        progress(f, ev, p, n + 1) is Some,
    ensures
        progress(f, ev, p, n) is Some,
        ({
            let (a, b) = (progress(f, ev, p, n)->0, progress(f, ev, p, n + 1)->0);
            let d = decay_at(f, ev, p.beta, n as int);
            let (buys, sells) = (a.r_buy * d, a.r_sell * d);
            &&& is_buy_at(ev, n as int) ==> b.r_sell == sells && b.r_buy == buys + Real::whole(1)
            &&& !is_buy_at(ev, n as int) ==> b.r_buy == buys && b.r_sell == sells + Real::whole(1)
        }),
{
}

/// Where neither side excites buys, a buy has the background rate of buys: it adds the
/// logarithm of that rate. So with sells. What excites the other side does not matter.
pub proof fn unexcited_event_has_the_background_rate(
    f: Oracle,
    ev: Events,
    p: HawkesParams,
    n: nat,
)
    requires
        progress(f, ev, p, n + 1) is Some,
        ({
            let a = progress(f, ev, p, n)->0;
            let d = decay_at(f, ev, p.beta, n as int);
            (a.r_buy * d).finite() && (a.r_sell * d).finite()
        }),
        p.mu_buy.finite() && p.mu_buy.value() != 0,
        p.mu_sell.finite() && p.mu_sell.value() != 0,
    ensures
        ({
            let (a, b) = (progress(f, ev, p, n)->0, progress(f, ev, p, n + 1)->0);
            &&& is_buy_at(ev, n as int) && p.alpha_bb.zero() && p.alpha_sb.zero() ==> b.ll == a.ll
                + ln_of(f, p.mu_buy)
            &&& !is_buy_at(ev, n as int) && p.alpha_ss.zero() && p.alpha_bs.zero() ==> b.ll == a.ll
                + ln_of(f, p.mu_sell)
        }),
{
    let a = progress(f, ev, p, n)->0;
    let d = decay_at(f, ev, p.beta, n as int);
    let (buys, sells) = (a.r_buy * d, a.r_sell * d);
    if is_buy_at(ev, n as int) && p.alpha_bb.zero() && p.alpha_sb.zero() {
        lemma_times_zero(buys, p.alpha_bb);
        lemma_times_zero(sells, p.alpha_sb);
        lemma_plus_zero(p.mu_buy, p.alpha_bb * buys);
        lemma_plus_zero(p.mu_buy, p.alpha_sb * sells);
    }
    if !is_buy_at(ev, n as int) && p.alpha_ss.zero() && p.alpha_bs.zero() {
        lemma_times_zero(sells, p.alpha_ss);
        lemma_times_zero(buys, p.alpha_bs);
        lemma_plus_zero(p.mu_sell, p.alpha_ss * sells);
        lemma_plus_zero(p.mu_sell, p.alpha_bs * buys);
    }
}

/// The rate of a buy is the background rate of buys and what the earlier buys and sells
/// excite, up to rounding: buys through one factor and sells through the other. So with
/// sells.
pub proof fn rate_adds_the_excitation(f: Oracle, ev: Events, p: HawkesParams, n: nat)
    requires
        progress(f, ev, p, n + 1) is Some,
        ({
            let a = progress(f, ev, p, n)->0;
            let d = decay_at(f, ev, p.beta, n as int);
            let (buys, sells) = (a.r_buy * d, a.r_sell * d);
            &&& (p.mu_buy + p.alpha_bb * buys + p.alpha_sb * sells).finite()
            &&& (p.mu_sell + p.alpha_ss * sells + p.alpha_bs * buys).finite()
        }),
    ensures
        ({
            let (a, b) = (progress(f, ev, p, n)->0, progress(f, ev, p, n + 1)->0);
            let d = decay_at(f, ev, p.beta, n as int);
            let (buys, sells) = (a.r_buy * d, a.r_sell * d);
            exists|rate: Real, own: Real, cross: Real, so_far: Real|
                #![trigger is_sum(rate, so_far, cross), is_sum(so_far, p.mu_buy, own)]
                #![trigger is_sum(rate, so_far, cross), is_sum(so_far, p.mu_sell, own)]
                b.ll == a.ll + ln_of(f, rate) && is_sum(rate, so_far, cross) && if is_buy_at(
                    ev,
                    n as int,
                ) {
                    is_sum(so_far, p.mu_buy, own) && is_product(own, p.alpha_bb, buys)
                        && is_product(cross, p.alpha_sb, sells)
                } else {
                    is_sum(so_far, p.mu_sell, own) && is_product(own, p.alpha_ss, sells)
                        && is_product(cross, p.alpha_bs, buys)
                }
        }),
{
    let a = progress(f, ev, p, n)->0;
    let d = decay_at(f, ev, p.beta, n as int);
    let (buys, sells) = (a.r_buy * d, a.r_sell * d);
    if is_buy_at(ev, n as int) {
        let (own, cross) = (p.alpha_bb * buys, p.alpha_sb * sells);
        let so_far = p.mu_buy + own;
        lemma_finite_terms(so_far, cross);
        lemma_finite_terms(p.mu_buy, own);
        lemma_operations_are_close(p.alpha_bb, buys);
        lemma_operations_are_close(p.alpha_sb, sells);
        lemma_operations_are_close(p.mu_buy, own);
        lemma_operations_are_close(so_far, cross);
        assert(is_sum(so_far + cross, so_far, cross) && is_sum(so_far, p.mu_buy, own));
    } else {
        let (own, cross) = (p.alpha_ss * sells, p.alpha_bs * buys);
        let so_far = p.mu_sell + own;
        lemma_finite_terms(so_far, cross);
        lemma_finite_terms(p.mu_sell, own);
        lemma_operations_are_close(p.alpha_ss, sells);
        lemma_operations_are_close(p.alpha_bs, buys);
        lemma_operations_are_close(p.mu_sell, own);
        lemma_operations_are_close(so_far, cross);
        assert(is_sum(so_far + cross, so_far, cross) && is_sum(so_far, p.mu_sell, own));
    }
}

/// Without excitation the log likelihood is the sum of the log rates less the expected
/// numbers of buys and sells, rate times time, up to rounding.
pub proof fn unexcited_likelihood_is_of_two_rates(
    f: Oracle,
    t_buy: Seq<Real>,
    t_sell: Seq<Real>,
    t_end: Real,
    p: HawkesParams,
)
    requires
        p.valid(),
        p.alpha_bb.zero() && p.alpha_sb.zero() && p.alpha_ss.zero() && p.alpha_bs.zero(),
        p.beta.finite() && p.beta.value() != 0,
        progress(f, events_of(t_buy, t_sell), p, t_buy.len() + t_sell.len()) is Some,
        sum_of_seq(decayed(f, t_buy, p.beta, t_end)).finite(),
        sum_of_seq(decayed(f, t_sell, p.beta, t_end)).finite(),
        (p.mu_buy * t_end).finite() && (p.mu_buy * t_end).value() != 0,
        (p.mu_sell * t_end).finite() && (p.mu_sell * t_end).value() != 0,
        likelihood(f, t_buy, t_sell, t_end, p).finite(),
    ensures
        ({
            let s = progress(f, events_of(t_buy, t_sell), p, t_buy.len() + t_sell.len())->0;
            exists|buys: Real, sells: Real, rest: Real|
                #![trigger is_product(buys, p.mu_buy, t_end), is_product(
                    sells,
                    p.mu_sell,
                    t_end,
                ), is_sum(rest, s.ll, buys.neg())]
                is_product(buys, p.mu_buy, t_end) && is_product(sells, p.mu_sell, t_end) && is_sum(
                    rest,
                    s.ll,
                    buys.neg(),
                ) && is_sum(likelihood(f, t_buy, t_sell, t_end, p), rest, sells.neg())
        }),
{
    let ev = events_of(t_buy, t_sell);
    assert(ev.times.len() == t_buy.len() + t_sell.len());
    let s = progress(f, ev, p, ev.times.len())->0;
    let b = sum_of_seq(decayed(f, t_buy, p.beta, t_end));
    let a = sum_of_seq(decayed(f, t_sell, p.beta, t_end));
    let (buys, sells) = (p.mu_buy * t_end, p.mu_sell * t_end);
    lemma_no_term(p.alpha_bb, p.beta, b);
    lemma_no_term(p.alpha_sb, p.beta, a);
    lemma_no_term(p.alpha_ss, p.beta, a);
    lemma_no_term(p.alpha_bs, p.beta, b);
    lemma_plus_zero(buys, (p.alpha_bb / p.beta) * b);
    lemma_plus_zero(buys, (p.alpha_sb / p.beta) * a);
    lemma_plus_zero(sells, (p.alpha_ss / p.beta) * a);
    lemma_plus_zero(sells, (p.alpha_bs / p.beta) * b);
    let rest = s.ll - buys;
    assert(likelihood(f, t_buy, t_sell, t_end, p) == rest - sells);
    lemma_finite_terms(rest, sells.neg());
    lemma_operations_are_close(p.mu_buy, t_end);
    lemma_operations_are_close(p.mu_sell, t_end);
    lemma_operations_are_close(s.ll, buys);
    lemma_operations_are_close(rest, sells);
    assert(is_product(buys, p.mu_buy, t_end) && is_product(sells, p.mu_sell, t_end) && is_sum(
        rest,
        s.ll,
        buys.neg(),
    ));
}

proof fn lemma_no_term(alpha: Real, beta: Real, x: Real)
    requires
        alpha.zero(),
        beta.finite(),
        beta.value() != 0,
        x.finite(),
    ensures
        ((alpha / beta) * x).zero(),
{
    lemma_zero_over(alpha, beta);
    lemma_times_zero(x, alpha / beta);
}

/// The cross-excitation times the excitation of buys by buys is that of sells by buys, up
/// to rounding.
pub proof fn cross_excitation_compares_what_buys_excite(h: HawkesProcess)
    requires
        Real::ratio(1, 10_000_000_000) <= h.alpha_bb,
        h.alpha_bb.finite(),
        h.alpha_bs.finite(),
        h.cross_excitation_ratio().finite(),
    ensures
        is_quotient(h.cross_excitation_ratio(), h.alpha_bs, h.alpha_bb),
{
    lemma_small_ratio(10_000_000_000);
    lemma_order_key(Real::ratio(1, 10_000_000_000), h.alpha_bb);
    lemma_operations_are_close(h.alpha_bs, h.alpha_bb);
}

/// The imbalance times both background rates is that of buys less that of sells, up to
/// rounding.
pub proof fn imbalance_compares_the_rates(h: HawkesProcess)
    requires
        Real::ratio(1, 10_000_000_000) <= h.mu_buy + h.mu_sell,
        (h.mu_buy + h.mu_sell).finite(),
        (h.mu_buy - h.mu_sell).finite(),
        h.intensity_ofi().finite(),
    ensures
        near_ratio(
            h.intensity_ofi(),
            h.mu_buy.value() - h.mu_sell.value(),
            (h.mu_buy + h.mu_sell).value(),
            3,
        ),
        h.mu_buy.value() >= h.mu_sell.value() ==> h.intensity_ofi().value() >= 0,
        h.mu_buy.value() <= h.mu_sell.value() ==> h.intensity_ofi().value() <= 0,
{
    let total = h.mu_buy + h.mu_sell;
    lemma_small_ratio(10_000_000_000);
    lemma_order_key(Real::ratio(1, 10_000_000_000), total);
    lemma_sum_over(h.mu_buy, h.mu_sell, total);
    lemma_finite_terms(h.mu_buy, h.mu_sell);
    lemma_difference_sign(h.mu_buy, h.mu_sell);
    lemma_quotient_near(h.mu_buy - h.mu_sell, total);
    let (d, t) = ((h.mu_buy - h.mu_sell).value(), total.value());
    assert(d >= 0 ==> d * t >= 0) by (nonlinear_arith)
        requires
            t > 0,
    ;
    assert(d <= 0 ==> d * t <= 0) by (nonlinear_arith)
        requires
            t > 0,
    ;
}

/// A parameter whose likelihood rises along it does not fall in a step of the ascent.
pub proof fn ascent_climbs(
    f: Oracle,
    t_buy: Seq<Real>,
    t_sell: Seq<Real>,
    t_end: Real,
    p: HawkesParams,
    i: int,
)
    requires
        0 <= i < 7,
        ({
            let g = gradient(f, t_buy, t_sell, t_end, p, i);
            Real::whole(0) <= g && g.finite()
        }),
        parameter(p, i).finite(),
        (parameter(p, i) + Real::ratio(1, 100_000) * gradient(
            f,
            t_buy,
            t_sell,
            t_end,
            p,
            i,
        )).finite(),
    ensures
        parameter(p, i) <= parameter(ascended(f, t_buy, t_sell, t_end, p), i),
{
    let g = gradient(f, t_buy, t_sell, t_end, p, i);
    let lr = Real::ratio(1, 100_000);
    lemma_small_ratio(100_000);
    lemma_mul_monotone(g, g, lr);
    let (x, y) = (parameter(p, i), parameter(p, i) + lr * g);
    lemma_add_grows(x, lr * g);
    let z = parameter(ascended(f, t_buy, t_sell, t_end, p), i);
    lemma_order_key(x, y);
    lemma_whole(0);
    lemma_small_ratio(100_000_000);
    lemma_small_ratio(100);
    lemma_order_key(y, z);
    lemma_order_key(x, z);
}

/// Parameter `i`, in the order in which the ascent takes them.
pub open spec fn parameter(p: HawkesParams, i: int) -> Real {
    if i == 0 {
        p.mu_buy
    } else if i == 1 {
        p.mu_sell
    } else if i == 2 {
        p.alpha_bb
    } else if i == 3 {
        p.alpha_ss
    } else if i == 4 {
        p.alpha_bs
    } else if i == 5 {
        p.alpha_sb
    } else {
        p.beta
    }
}

/// Moving a parameter moves it and no other.
pub proof fn only_one_parameter_moves(p: HawkesParams, i: int, j: int, d: Real)
    requires
        0 <= i < 7,
        0 <= j < 7,
        i != j,
        (parameter(p, i) + d).finite(),
    ensures
        is_sum(parameter(p.moved(i, d), i), parameter(p, i), d),
        parameter(p.moved(i, d), j) == parameter(p, j),
{
    lemma_operations_are_close(parameter(p, i), d);
}

/// The ascent starts at the observed rates: rate times time is the number of events, up to
/// rounding.
pub proof fn ascent_starts_at_the_observed_rates(n_buy: usize, n_sell: usize, t_end: Real)
    requires
        Real::whole(1) <= t_end,
        t_end.finite(),
        Real::count(n_buy).finite(),
        Real::count(n_sell).finite(),
        initial_params(n_buy as nat, n_sell as nat, t_end).mu_buy.finite(),
        initial_params(n_buy as nat, n_sell as nat, t_end).mu_sell.finite(),
    ensures
        ({
            let p = initial_params(n_buy as nat, n_sell as nat, t_end);
            &&& is_quotient(p.mu_buy, Real::count(n_buy), t_end)
            &&& is_quotient(p.mu_sell, Real::count(n_sell), t_end)
        }),
{
    lemma_whole(1);
    lemma_pow2_pos(1074);
    assert(1 * pow2(1074) == pow2(1074));
    lemma_order_key(Real::whole(1), t_end);
    lemma_operations_are_close(Real::count(n_buy), t_end);
    lemma_operations_are_close(Real::count(n_sell), t_end);
}

/// A thousand times the seconds are the milliseconds, up to rounding.
pub proof fn seconds_are_thousands(times: Seq<u64>, i: int)
    requires
        0 <= i < times.len(),
        Real::stamp(times[i]).finite(),
        seconds(times)[i].finite(),
    ensures
        is_quotient(seconds(times)[i], Real::stamp(times[i]), Real::whole(1000)),
{
    lemma_whole(1000);
    lemma_pow2_pos(1074);
    lemma_operations_are_close(Real::stamp(times[i]), Real::whole(1000));
}

} // verus!
