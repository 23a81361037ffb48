//! What the features of prices and funding mean.
use vstd::arithmetic::power2::{lemma_pow2_pos, pow2};
use vstd::prelude::*;

use crate::data::store::FundingSample;
use crate::features::funding::{funding_of, recent, recent_rates, WINDOW_MS};
use crate::features::technical::{
    above_low, below_high, beta_of, bollinger_of, change_of, co_deviations, correlation_of,
    deviation_of, ema_of, ema_run, gains_of, highest, losses_of, lowest, macd_of, negligible,
    rsi_of, smoothed, smoothing, tail_of, true_range,
};
use crate::num::constants::{infinity, minus_infinity};
use crate::num::drift::{lemma_mul_commutes, size, PARTS};
use crate::num::magnitude::lemma_units_zero;
use crate::num::model::BINADE;
use crate::num::ops::lemma_order_key;
use crate::num::order::{
    lemma_add_not_negative, lemma_count, lemma_count_order, lemma_whole, lemma_whole_order,
};
use crate::num::rules::{
    is_quotient, is_sum, lemma_difference_sign, lemma_operations_are_close, lemma_over_itself,
    lemma_plus_zero, lemma_quotient_near, lemma_small_ratio, lemma_sum_over, lemma_times_one,
    lemma_times_zero, lemma_zero_over, lemma_zero_value, near_ratio,
};
use crate::num::series::{mean_of, squared_deviations, sum_of_seq};
use crate::num::Real;

verus! {

/// The premium times the oracle price is the distance of the mark price from it, up to
/// rounding.
pub proof fn premium_is_a_share_of_the_oracle_price(
    history: Seq<FundingSample>,
    mark: Real,
    reference: Real,
)
    requires
        history.len() > 0,
        Real::ratio(1, 10_000_000_000) < reference,
        reference.finite(),
        (mark - reference).finite(),
        funding_of(history, mark, reference).premium_pct.finite(),
    ensures
        near_ratio(
            funding_of(history, mark, reference).premium_pct,
            mark.value() - reference.value(),
            reference.value(),
            3,
        ),
{
    lemma_whole(0);
    assert(0 * pow2(1074) == 0);
    lemma_small_ratio(10_000_000_000);
    lemma_sum_over(mark, reference, reference);
}

/// The features hold the latest rate and its change from the one before.
pub proof fn momentum_is_the_latest_change(
    history: Seq<FundingSample>,
    mark: Real,
    reference: Real,
)
    requires
        history.len() >= 2,
        funding_of(history, mark, reference).momentum.finite(),
    ensures
        ({
            let f = funding_of(history, mark, reference);
            let n = history.len();
            &&& f.current_rate == history[n - 1].rate
            &&& is_sum(f.momentum, history[n - 1].rate, history[n - 2].rate.neg())
        }),
{
    let n = history.len();
    lemma_operations_are_close(history[n - 1].rate, history[n - 2].rate);
}

/// The annual rate is that of three times three hundred sixty-five payments, up to
/// rounding.
pub proof fn annual_rate_is_that_of_all_payments(
    history: Seq<FundingSample>,
    mark: Real,
    reference: Real,
)
    requires
        history.len() > 0,
        funding_of(history, mark, reference).annualised.finite(),
    ensures
        ({
            let (a, r) = (
                funding_of(history, mark, reference).annualised.value(),
                history.last().rate.value(),
            );
            size(a - 1095 * r) * PARTS <= 3 * size(1095 * r) + 400 * BINADE
        }),
{
    let rate = history.last().rate;
    let w = pow2(1074) as int;
    lemma_pow2_pos(1074);
    lemma_whole(3);
    lemma_whole(365);
    let (three, year) = (Real::whole(3), Real::whole(365));
    let day = rate * three;
    lemma_operations_are_close(day, year);
    crate::num::rules::lemma_finite_factors(day, year);
    lemma_operations_are_close(rate, three);
    lemma_by_whole(day.value(), rate.value(), 3, w);
    lemma_by_whole((day * year).value(), day.value(), 365, w);
    let (a, d, r) = ((day * year).value(), day.value(), rate.value());
    let (e, g) = (d - 3 * r, a - 365 * d);
    assert(size(e) * PARTS <= 3 * size(r) + BINADE);
    assert(size(e) <= size(e) * PARTS) by (nonlinear_arith);
    assert(2 * size(e) <= size(e) * PARTS) by (nonlinear_arith);
    assert(a - 1095 * r == g + 365 * e);
    assert(size(g + 365 * e) * PARTS <= size(g) * PARTS + 365 * (size(e) * PARTS))
        by (nonlinear_arith);
}

/// A product with a whole number, in least units.
proof fn lemma_by_whole(p: int, x: int, k: int, w: int)
    requires
        k > 0,
        w > 0,
        size(p * w - x * (k * w)) * PARTS <= size(x * (k * w)) + w * BINADE,
    ensures
        size(p - k * x) * PARTS <= k * size(x) + BINADE,
{
    let e = p - k * x;
    assert(p * w - x * (k * w) == e * w) by (nonlinear_arith)
        requires
            e == p - k * x,
    ;
    assert(size(e * w) == size(e) * w) by (nonlinear_arith)
        requires
            w > 0,
    ;
    assert(size(x * (k * w)) == k * size(x) * w) by (nonlinear_arith)
        requires
            k > 0,
            w > 0,
    ;
    let (a, b) = (size(e), k * size(x));
    assert(a * PARTS <= b + BINADE) by (nonlinear_arith)
        requires
            a * w * PARTS <= b * w + w * BINADE,
            w > 0,
    ;
}

/// A sample from before the last thirty days counts for nothing.
pub proof fn old_sample_counts_for_nothing(
    old_one: FundingSample,
    history: Seq<FundingSample>,
    mark: Real,
    reference: Real,
)
    requires
        history.len() >= 2,
        old_one.time + WINDOW_MS < history.last().time,
    ensures
        funding_of(seq![old_one] + history, mark, reference) == funding_of(history, mark, reference),
{
    let all = seq![old_one] + history;
    lemma_recent_rest(old_one, history, history.last().time);
    assert(all.last() == history.last());
    assert(all[all.len() - 2] == history[history.len() - 2]);
}

proof fn lemma_recent_rest(old_one: FundingSample, history: Seq<FundingSample>, now: u64)
    requires
        !recent(old_one, now),
    ensures
        recent_rates(seq![old_one] + history, now) == recent_rates(history, now),
    decreases history.len(),
{
    let all = seq![old_one] + history;
    if history.len() == 0 {
        assert(all.drop_last() =~= Seq::<FundingSample>::empty());
        assert(recent_rates(all.drop_last(), now) =~= Seq::<Real>::empty());
    } else {
        lemma_recent_rest(old_one, history.drop_last(), now);
        assert(all.drop_last() =~= seq![old_one] + history.drop_last());
        assert(all.last() == history.last());
    }
}

/// Samples of the last thirty days all count.
pub proof fn recent_samples_all_count(history: Seq<FundingSample>, now: u64)
    requires
        forall|i: int| 0 <= i < history.len() ==> (#[trigger] history[i]).time + WINDOW_MS >= now,
    ensures
        recent_rates(history, now) == history.map_values(|s: FundingSample| s.rate),
    decreases history.len(),
{
    let goal = history.map_values(|s: FundingSample| s.rate);
    if history.len() > 0 {
        let before = history.drop_last();
        assert forall|i: int| 0 <= i < before.len() implies (#[trigger] before[i]).time + WINDOW_MS
            >= now by {
            assert(before[i] == history[i]);
        }
        recent_samples_all_count(before, now);
        assert(history[history.len() - 1].time + WINDOW_MS >= now);
        assert(goal =~= before.map_values(|s: FundingSample| s.rate).push(history.last().rate));
    } else {
        assert(goal =~= Seq::<Real>::empty());
    }
}

/// The score times the deviation of the recent rates, or what counts as none, is the
/// latest rate's distance from their mean, up to rounding.
pub proof fn score_is_a_distance_in_deviations(
    history: Seq<FundingSample>,
    mark: Real,
    reference: Real,
)
    requires
        history.len() > 0,
        ({
            let rates = recent_rates(history, history.last().time);
            let sigma = deviation_of(rates, Real::count(rates.len() as usize)).max(negligible());
            &&& sigma.finite()
            &&& Real::whole(0) < sigma
            &&& (history.last().rate - mean_of(rates)).finite()
            &&& funding_of(history, mark, reference).z_score.finite()
        }),
    ensures
        ({
            let rates = recent_rates(history, history.last().time);
            let sigma = deviation_of(rates, Real::count(rates.len() as usize)).max(negligible());
            near_ratio(
                funding_of(history, mark, reference).z_score,
                history.last().rate.value() - mean_of(rates).value(),
                sigma.value(),
                3,
            )
        }),
{
    lemma_whole(0);
    assert(0 * pow2(1074) == 0);
    let rates = recent_rates(history, history.last().time);
    let sigma = deviation_of(rates, Real::count(rates.len() as usize)).max(negligible());
    lemma_sum_over(history.last().rate, mean_of(rates), sigma);
}

/// The mean times the count is the sum, up to rounding.
pub proof fn mean_is_the_sum_over_the_count(s: Seq<Real>)
    requires
        0 < s.len() <= 0xffff_ffff,
        sum_of_seq(s).finite(),
        mean_of(s).finite(),
    ensures
        size(mean_of(s).value() * s.len() - sum_of_seq(s).value()) * PARTS <= size(
            sum_of_seq(s).value(),
        ) + s.len() * BINADE,
{
    let w = pow2(1074) as int;
    lemma_pow2_pos(1074);
    let n = s.len() as int;
    lemma_count(s.len() as usize);
    lemma_whole(s.len() as i64);
    let (m, t) = (mean_of(s).value(), sum_of_seq(s).value());
    assert(n * w != 0) by (nonlinear_arith)
        requires
            n > 0,
            w > 0,
    ;
    lemma_quotient_near(sum_of_seq(s), Real::count(s.len() as usize));
    let e = m * n - t;
    assert(m * (n * w) - t * w == e * w) by (nonlinear_arith)
        requires
            e == m * n - t,
    ;
    assert(size(e * w) == size(e) * w) by (nonlinear_arith)
        requires
            w > 0,
    ;
    assert(size(n * w) == n * w) by (nonlinear_arith)
        requires
            n > 0,
            w > 0,
    ;
    assert(size(e) * PARTS <= size(t) + n * BINADE) by (nonlinear_arith)
        requires
            size(e) * w * PARTS <= size(t) * w + (n * w) * BINADE,
            w > 0,
    ;
}

proof fn lemma_smoothed_zeros(s: Seq<Real>, period: usize, n: nat)
    requires
        0 < period <= s.len(),
        n <= s.len(),
        period < 0x20_0000_0000_0000,
        forall|i: int| 0 <= i < s.len() ==> (#[trigger] s[i]).zero(),
    ensures
        smoothed(s, period, n).zero(),
    decreases n,
{
    let p = Real::count(period);
    lemma_count(period);
    lemma_whole(period as i64);
    lemma_whole(0);
    lemma_whole(1);
    let w = pow2(1074) as int;
    lemma_pow2_pos(1074);
    assert(0 * w == 0 && 1 * w == w);
    let k = period as int;
    assert(k * w > 0) by (nonlinear_arith)
        requires
            k > 0,
            w > 0,
    ;
    if n <= period {
        let t = s.take(period as int);
        lemma_zero_sum(t);
        lemma_zero_over(sum_of_seq(t), p);
    } else {
        let before = smoothed(s, period, (n - 1) as nat);
        lemma_smoothed_zeros(s, period, (n - 1) as nat);
        let q = p - Real::whole(1);
        assert(q.finite()) by {
            lemma_zero_value(Real::whole(1));
            lemma_difference_sign(p, Real::whole(1));
            lemma_count_below(period);
        }
        lemma_times_zero(q, before);
        assert(s[n - 1].zero());
        let t = before * q + s[n - 1];
        lemma_zero_value(s[n - 1]);
        lemma_plus_zero(before * q, s[n - 1]);
        lemma_zero_value(t);
        lemma_zero_over(t, p);
    }
}

/// A count less one is finite.
proof fn lemma_count_below(period: usize)
    requires
        0 < period < 0x20_0000_0000_0000,
    ensures
        (Real::count(period) - Real::whole(1)).finite(),
{
    let (p, one) = (Real::count(period), Real::whole(1));
    lemma_count(period);
    lemma_whole(period as i64);
    lemma_whole(1);
    lemma_whole_order(0, 1);
    lemma_whole_order(0, period as i64);
    crate::num::rules::lemma_subtracts(p, one);
}

proof fn lemma_zero_sum(t: Seq<Real>)
    requires
        forall|i: int| 0 <= i < t.len() ==> (#[trigger] t[i]).zero(),
    ensures
        sum_of_seq(t).zero(),
    decreases t.len(),
{
    lemma_units_zero(0);
    if t.len() > 0 {
        let b = t.drop_last();
        assert forall|i: int| 0 <= i < b.len() implies (#[trigger] b[i]).zero() by {
            assert(t[i].zero());
        }
        lemma_zero_sum(b);
        let (x, y) = (sum_of_seq(b), t.last());
        assert(t[t.len() - 1].zero());
        lemma_plus_zero(x, y);
        lemma_zero_value(x);
        lemma_zero_value(x + y);
    }
}

/// Prices that only rise have the greatest strength.
pub proof fn rising_prices_have_full_strength(closes: Seq<Real>, period: usize)
    requires
        0 < period < closes.len(),
        period < 0x20_0000_0000_0000,
        forall|i: int| 0 <= i < closes.len() ==> (#[trigger] closes[i]).finite(),
        forall|i: int|
            0 <= i < closes.len() - 1 ==> (#[trigger] closes[i]).value() < closes[i + 1].value(),
    ensures
        rsi_of(closes, period) == Some(Real::whole(100)),
{
    let n = (closes.len() - 1) as nat;
    let losses = losses_of(closes);
    lemma_whole(0);
    assert(0 * pow2(1074) == 0);
    lemma_units_zero(0);
    lemma_zero_value(Real::whole(0));
    lemma_small_ratio(1_000_000_000_000_000);
    assert forall|i: int| 0 <= i < losses.len() implies (#[trigger] losses[i]).zero() by {
        assert(closes[i].value() < closes[i + 1].value());
        lemma_difference_sign(closes[i + 1], closes[i]);
        lemma_zero_value(closes[i + 1] - closes[i]);
        lemma_order_key(Real::whole(0), closes[i + 1] - closes[i]);
    }
    lemma_smoothed_zeros(losses, period, n);
    let loss = smoothed(losses, period, n);
    lemma_zero_value(loss);
    assert(loss.value() == 0);
    assert(loss < negligible());
}

/// Prices that only fall have no strength.
pub proof fn falling_prices_have_no_strength(closes: Seq<Real>, period: usize)
    requires
        0 < period < closes.len(),
        period < 0x20_0000_0000_0000,
        forall|i: int| 0 <= i < closes.len() ==> (#[trigger] closes[i]).finite(),
        forall|i: int|
            0 <= i < closes.len() - 1 ==> (#[trigger] closes[i]).value() > closes[i + 1].value(),
        ({
            let loss = smoothed(losses_of(closes), period, (closes.len() - 1) as nat);
            loss.finite() && negligible() <= loss
        }),
    ensures
        rsi_of(closes, period) matches Some(x) && x.zero(),
{
    let n = (closes.len() - 1) as nat;
    let (gains, losses) = (gains_of(closes), losses_of(closes));
    let w = pow2(1074) as int;
    lemma_pow2_pos(1074);
    lemma_whole(0);
    lemma_whole(1);
    lemma_whole(100);
    assert(0 * w == 0 && 1 * w == w);
    lemma_units_zero(0);
    lemma_zero_value(Real::whole(0));
    lemma_small_ratio(1_000_000_000_000_000);
    assert forall|i: int| 0 <= i < gains.len() implies (#[trigger] gains[i]).zero() by {
        assert(closes[i].value() > closes[i + 1].value());
        lemma_difference_sign(closes[i + 1], closes[i]);
        lemma_zero_value(closes[i + 1] - closes[i]);
    }
    lemma_smoothed_zeros(gains, period, n);
    let (gain, loss) = (smoothed(gains, period, n), smoothed(losses, period, n));
    lemma_order_key(negligible(), loss);
    lemma_full_share(gain, loss);
}

/// Without gains the strength is one hundred less one hundred.
proof fn lemma_full_share(gain: Real, loss: Real)
    requires
        gain.zero(),
        loss.finite(),
        loss.value() > 0,
    ensures
        (Real::whole(100) - Real::whole(100) / (Real::whole(1) + gain / loss)).zero(),
{
    let (one, hundred) = (Real::whole(1), Real::whole(100));
    let w = pow2(1074) as int;
    lemma_pow2_pos(1074);
    lemma_whole(1);
    lemma_whole(100);
    assert(1 * w == w);
    lemma_zero_over(gain, loss);
    lemma_plus_zero(one, gain / loss);
    crate::num::rules::lemma_over_one(hundred);
    lemma_difference_sign(hundred, hundred);
    lemma_zero_value(hundred - hundred);
}

/// The range of a bar covers the bar and its distance from the close before, and is one of
/// these.
pub proof fn true_range_covers_the_gap(high: Real, low: Real, before: Real)
    requires
        high.finite(),
        low.finite(),
        before.finite(),
    ensures
        ({
            let r = true_range(high, low, before);
            &&& high - low <= r
            &&& (high - before).abs() <= r
            &&& (low - before).abs() <= r
            &&& r == high - low || r == (high - before).abs() || r == (low - before).abs()
        }),
{
    lemma_difference_sign(high, low);
    lemma_difference_sign(high, before);
    lemma_difference_sign(low, before);
    lemma_zero_value(high - before);
    lemma_zero_value(low - before);
}

/// The highest of some elements is one of them, and no less than any; so is the lowest,
/// and no more than any.
pub proof fn extremes_are_attained(s: Seq<Real>, n: nat)
    requires
        0 < n <= s.len(),
        forall|i: int| 0 <= i < s.len() ==> (#[trigger] s[i]).finite(),
    ensures
        exists|i: int| 0 <= i < n && highest(s, n) == #[trigger] s[i],
        exists|i: int| 0 <= i < n && lowest(s, n) == #[trigger] s[i],
        forall|i: int| 0 <= i < n ==> #[trigger] s[i] <= highest(s, n),
        forall|i: int| 0 <= i < n ==> lowest(s, n) <= #[trigger] s[i],
    decreases n,
{
    let x = s[n - 1];
    assert(x.finite());
    lemma_order_key(minus_infinity(), x);
    lemma_order_key(x, infinity());
    if n == 1 {
        assert(highest(s, 0) == minus_infinity());
        assert(lowest(s, 0) == infinity());
        assert(highest(s, 1) == s[0]);
        assert(lowest(s, 1) == s[0]);
    } else {
        let m = (n - 1) as nat;
        extremes_are_attained(s, m);
        let (a, b) = (highest(s, m), lowest(s, m));
        assert forall|i: int| 0 <= i < n implies #[trigger] s[i] <= highest(s, n) by {
            if i < n - 1 {
                assert(s[i] <= a);
                lemma_order_key(s[i], a);
                lemma_order_key(a, x);
                lemma_order_key(s[i], x);
            }
        }
        assert forall|i: int| 0 <= i < n implies lowest(s, n) <= #[trigger] s[i] by {
            if i < n - 1 {
                assert(b <= s[i]);
                lemma_order_key(b, s[i]);
                lemma_order_key(x, b);
                lemma_order_key(x, s[i]);
            }
        }
    }
}

/// The distances of the last close from the extremes of the latest closes are fractions of
/// these extremes, up to rounding.
pub proof fn distances_are_shares_of_the_extremes(closes: Seq<Real>, period: usize)
    requires
        0 < period <= closes.len(),
        ({
            let t = tail_of(closes, period as nat);
            let (top, bottom) = (highest(t, period as nat), lowest(t, period as nat));
            &&& top.finite() && bottom.finite()
            &&& negligible() <= top
            &&& negligible() <= bottom
            &&& (top - closes.last()).finite()
            &&& (closes.last() - bottom).finite()
            &&& below_high(closes, period)->0.finite()
            &&& above_low(closes, period)->0.finite()
        }),
    ensures
        ({
            let t = tail_of(closes, period as nat);
            let (top, bottom) = (highest(t, period as nat), lowest(t, period as nat));
            let last = closes.last().value();
            &&& below_high(closes, period) matches Some(x) && near_ratio(
                x,
                top.value() - last,
                top.value(),
                3,
            )
            &&& above_low(closes, period) matches Some(y) && near_ratio(
                y,
                last - bottom.value(),
                bottom.value(),
                3,
            )
        }),
{
    let t = tail_of(closes, period as nat);
    let (top, bottom) = (highest(t, period as nat), lowest(t, period as nat));
    lemma_whole(0);
    assert(0 * pow2(1074) == 0);
    lemma_small_ratio(1_000_000_000_000_000);
    lemma_order_key(negligible(), top);
    lemma_order_key(negligible(), bottom);
    lemma_zero_value(top);
    lemma_zero_value(bottom);
    assert(bottom.abs().value() == bottom.value());
    lemma_sum_over(top, closes.last(), top);
    lemma_sum_over(closes.last(), bottom, bottom);
}

/// An average over one bar is the last element, and that of a single element is the
/// element.
pub proof fn average_over_one_is_the_last(s: Seq<Real>)
    requires
        s.len() > 0,
        s.last().finite(),
        s.len() > 1 ==> ema_run(s, Real::whole(1), (s.len() - 1) as nat).finite(),
    ensures
        ema_of(s, 1) matches Some(x) && x.value() == s.last().value(),
{
    lemma_whole(0);
    lemma_whole(1);
    lemma_whole(2);
    lemma_count(1);
    let w = pow2(1074) as int;
    lemma_pow2_pos(1074);
    assert(0 * w == 0 && 1 * w == w);
    let (one, two) = (Real::whole(1), Real::whole(2));
    assert(one + one == two) by {
        reveal(Real::spec_add);
        lemma_units_zero(one.mag());
        crate::num::ops::lemma_round_exact(two.mag());
        lemma_units_zero(two.mag());
    }
    lemma_over_itself(two);
    assert(smoothing(1) == one);
    if s.len() > 1 {
        let before = ema_run(s, one, (s.len() - 1) as nat);
        let rest = one - one;
        lemma_difference_sign(one, one);
        lemma_zero_value(rest);
        lemma_times_one(s.last());
        lemma_times_zero(before, rest);
        lemma_plus_zero(s.last(), before * rest);
    }
}

/// The weight of a new element times one more than the period is two, up to rounding.
pub proof fn smoothing_is_two_over_the_period(period: usize)
    requires
        0 < period < 0x20_0000_0000_0000,
        (Real::count(period) + Real::whole(1)).finite(),
        smoothing(period).finite(),
    ensures
        is_quotient(smoothing(period), Real::whole(2), Real::count(period) + Real::whole(1)),
{
    lemma_count_order(0, period);
    lemma_whole_order(0, 1);
    lemma_whole(0);
    lemma_whole(1);
    lemma_whole(2);
    lemma_pow2_pos(1074);
    assert(0 * pow2(1074) == 0 && 1 * pow2(1074) == pow2(1074));
    lemma_add_not_negative(Real::whole(1), Real::count(period));
    crate::num::order::lemma_add_grows(Real::whole(1), Real::count(period));
    crate::num::order::lemma_add_commutes(Real::whole(1), Real::count(period));
    let d = Real::count(period) + Real::whole(1);
    lemma_order_key(Real::whole(1), d);
    lemma_operations_are_close(Real::whole(2), d);
}

/// The histogram is the distance of the line from its average.
pub proof fn histogram_is_a_difference(closes: Seq<Real>)
    requires
        closes.len() >= 35,
        macd_of(closes) matches Some((_, _, histogram)) && histogram.finite(),
    ensures
        macd_of(closes) matches Some((line, signal, histogram)) && is_sum(
            histogram,
            line,
            signal.neg(),
        ),
{
    if let Some((line, signal, _)) = macd_of(closes) {
        lemma_operations_are_close(line, signal);
    }
}

/// One and the rate of change, times the earlier close, is the last close, up to rounding:
/// a rate of change is a quotient less one.
pub proof fn change_compares_the_closes(closes: Seq<Real>, period: usize)
    requires
        period < closes.len(),
        ({
            let base = closes[closes.len() - 1 - period];
            &&& base.finite()
            &&& negligible() <= base.abs()
            &&& closes.last().finite()
            &&& (closes.last() / base).finite()
            &&& change_of(closes, period)->0.finite()
        }),
    ensures
        ({
            let base = closes[closes.len() - 1 - period];
            change_of(closes, period) matches Some(x) && exists|q: Real|
                is_quotient(q, closes.last(), base) && #[trigger] is_sum(
                    x,
                    q,
                    Real::whole(1).neg(),
                )
        }),
{
    let base = closes[closes.len() - 1 - period];
    lemma_whole(0);
    assert(0 * pow2(1074) == 0);
    lemma_small_ratio(1_000_000_000_000_000);
    lemma_order_key(negligible(), base.abs());
    lemma_zero_value(base);
    let q = closes.last() / base;
    lemma_operations_are_close(closes.last(), base);
    lemma_operations_are_close(q, Real::whole(1));
    assert(is_sum(q - Real::whole(1), q, Real::whole(1).neg()));
}

/// The order of two series does not matter to their correlation.
pub proof fn correlation_is_symmetric(a: Seq<Real>, b: Seq<Real>, period: usize)
    ensures
        correlation_of(a, b, period) == correlation_of(b, a, period),
{
    let (t, u) = (tail_of(a, period as nat), tail_of(b, period as nat));
    let p = Real::count(period);
    let (x, y) = (sum_of_seq(t) / p, sum_of_seq(u) / p);
    lemma_mul_commutes(
        sum_of_seq(squared_deviations(t, x)),
        sum_of_seq(squared_deviations(u, y)),
    );
    assert(co_deviations(t, u, x, y) =~= co_deviations(u, t, y, x)) by {
        assert forall|i: int| 0 <= i < co_deviations(t, u, x, y).len() implies co_deviations(
            t,
            u,
            x,
            y,
        )[i] == co_deviations(u, t, y, x)[i] by {
            lemma_mul_commutes(t[i] - x, u[i] - y);
        }
    }
}

/// A series that varies has slope one on itself, and its correlation with itself times the
/// root of its squared variation is that variation.
pub proof fn series_moves_with_itself(a: Seq<Real>, period: usize)
    requires
        period <= a.len(),
        ({
            let t = tail_of(a, period as nat);
            let v = sum_of_seq(squared_deviations(t, sum_of_seq(t) / Real::count(period)));
            &&& v.finite()
            &&& negligible() <= v
            &&& (v * v).sqrt().finite()
            &&& negligible() <= (v * v).sqrt()
            &&& correlation_of(a, a, period)->0.finite()
        }),
    ensures
        beta_of(a, a, period) == Some(Real::whole(1)),
        ({
            let t = tail_of(a, period as nat);
            let v = sum_of_seq(squared_deviations(t, sum_of_seq(t) / Real::count(period)));
            correlation_of(a, a, period) matches Some(c) && is_quotient(c, v, (v * v).sqrt())
        }),
{
    let t = tail_of(a, period as nat);
    let x = sum_of_seq(t) / Real::count(period);
    let v = sum_of_seq(squared_deviations(t, x));
    let d = (v * v).sqrt();
    assert(co_deviations(t, t, x, x) =~= squared_deviations(t, x));
    lemma_whole(0);
    assert(0 * pow2(1074) == 0);
    lemma_small_ratio(1_000_000_000_000_000);
    lemma_order_key(negligible(), v);
    lemma_order_key(negligible(), d);
    lemma_zero_value(v);
    lemma_zero_value(d);
    lemma_over_itself(v);
    lemma_operations_are_close(v, d);
}

/// The place in the band times its width is the distance of the last close from the lower
/// edge, up to rounding; the edges are the mean less and more the deviations.
pub proof fn place_in_the_band_is_a_share_of_its_width(
    closes: Seq<Real>,
    period: usize,
    mult: Real,
)
    requires
        0 < period <= closes.len(),
        ({
            let t = tail_of(closes, period as nat);
            let (mu, sigma) = (
                sum_of_seq(t) / Real::count(period),
                deviation_of(t, Real::count(period)),
            );
            let (lower, upper) = (mu - mult * sigma, mu + mult * sigma);
            &&& negligible() <= sigma
            &&& negligible() <= upper - lower
            &&& (upper - lower).finite()
            &&& (closes.last() - lower).finite()
            &&& bollinger_of(closes, period, mult)->0.finite()
        }),
    ensures
        ({
            let t = tail_of(closes, period as nat);
            let (mu, sigma) = (
                sum_of_seq(t) / Real::count(period),
                deviation_of(t, Real::count(period)),
            );
            let (lower, upper) = (mu - mult * sigma, mu + mult * sigma);
            bollinger_of(closes, period, mult) matches Some(x) && near_ratio(
                x,
                closes.last().value() - lower.value(),
                (upper - lower).value(),
                3,
            )
        }),
{
    let t = tail_of(closes, period as nat);
    let (mu, sigma) = (
        sum_of_seq(t) / Real::count(period),
        deviation_of(t, Real::count(period)),
    );
    let (lower, upper) = (mu - mult * sigma, mu + mult * sigma);
    lemma_whole(0);
    assert(0 * pow2(1074) == 0);
    lemma_small_ratio(1_000_000_000_000_000);
    lemma_order_key(negligible(), upper - lower);
    lemma_zero_value(upper - lower);
    lemma_sum_over(closes.last(), lower, upper - lower);
}

} // verus!
