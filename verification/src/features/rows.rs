//! What a feature row, the price filter and the spectrum say of their inputs.
use vstd::arithmetic::power2::{lemma_pow2_pos, pow2};
use vstd::prelude::*;

use crate::assets::Asset;
use crate::data::store::{Bar, DataStore};
use crate::features::assembler::{last_or_zero, latest_close, recent_values, returns_at, row_of};
use crate::features::frequency::{
    angle_of, are_features, band_shares, demeaned_of, goertzel_of, goertzel_state,
    noise_ratio_of, powers_of, shares_of, spec_target_period, FrequencyFeatures, N_BANDS,
};
use crate::features::funding::{annual_vol_of, volatility_ratio_of};
use crate::features::kalman::KalmanFilter;
use crate::features::technical::beta_of;
use crate::num::constants::tiny20;
use crate::num::drift::{size, PARTS};
use crate::num::elementary::{Elementary, Oracle};
use crate::num::magnitude::lemma_units_zero;
use crate::num::ops::lemma_order_key;
use crate::num::order::lemma_whole;
use crate::num::rules::{
    is_product, is_quotient, is_sum, lemma_difference_sign, lemma_finite_factors,
    lemma_finite_terms, lemma_operations_are_close, lemma_plus_zero, lemma_root_near,
    lemma_small_ratio, lemma_sum_over, lemma_times_one, lemma_times_zero, lemma_zero_value,
    near_ratio,
};
use crate::num::series::{
    all_numbers, last_max, lemma_last_max, mean_of, squared_deviations, sum_of_seq,
};
use crate::num::Real;

verus! {

/// A row holds the filter's level and velocity and what else it was given; its deviation
/// times the level is the distance of the latest close from it, up to rounding.
pub proof fn row_reports_the_filter(
    asset: Asset,
    store: DataStore,
    kalman: KalmanFilter,
    vol: Real,
    z: Real,
    btc: Seq<Real>,
    ratio: Real,
    now: u64,
)
    requires
        kalman.x.x.finite(),
        Real::ratio(1, 10_000_000_000) < kalman.x.x.abs(),
        (latest_close(store, asset.symbol@) - kalman.x.x).finite(),
        row_of(asset, store, kalman, vol, z, btc, ratio, now).kalman_level_dev.finite(),
    ensures
        ({
            let row = row_of(asset, store, kalman, vol, z, btc, ratio, now);
            let price = latest_close(store, asset.symbol@);
            &&& row.asset@ == asset.symbol@
            &&& row.timestamp_ms == now
            &&& row.kalman_level == kalman.x.x
            &&& row.kalman_velocity == kalman.x.y
            &&& row.garch_vol == vol
            &&& row.ou_z_score == z
            &&& row.hawkes_cross_ratio == ratio
            &&& near_ratio(
                row.kalman_level_dev,
                price.value() - kalman.x.x.value(),
                kalman.x.x.value(),
                3,
            )
        }),
{
    let price = latest_close(store, asset.symbol@);
    lemma_small_ratio(10_000_000_000);
    lemma_zero_value(kalman.x.x);
    lemma_sum_over(price, kalman.x.x, kalman.x.x);
}

/// The return of its own is the latest return less what the benchmark's explains, up to
/// rounding.
pub proof fn own_return_is_what_the_benchmark_leaves(
    asset: Asset,
    store: DataStore,
    kalman: KalmanFilter,
    vol: Real,
    z: Real,
    btc: Seq<Real>,
    ratio: Real,
    now: u64,
)
    requires
        row_of(asset, store, kalman, vol, z, btc, ratio, now).idiosyncratic_ret.finite(),
    ensures
        ({
            let row = row_of(asset, store, kalman, vol, z, btc, ratio, now);
            let rets = returns_at(store, asset.symbol@, "5m"@);
            &&& beta_of(rets, btc, 60) matches Some(b) ==> row.beta_to_btc == b
            &&& exists|explained: Real| #[trigger]
                is_product(explained, row.beta_to_btc, last_or_zero(btc)) && is_sum(
                    row.idiosyncratic_ret,
                    last_or_zero(rets),
                    explained.neg(),
                )
        }),
{
    let row = row_of(asset, store, kalman, vol, z, btc, ratio, now);
    let rets = returns_at(store, asset.symbol@, "5m"@);
    let explained = row.beta_to_btc * last_or_zero(btc);
    lemma_finite_terms(last_or_zero(rets), explained.neg());
    lemma_zero_value(explained.neg());
    lemma_operations_are_close(row.beta_to_btc, last_or_zero(btc));
    lemma_operations_are_close(last_or_zero(rets), explained);
    assert(is_product(explained, row.beta_to_btc, last_or_zero(btc)));
}

/// A traded value is volume times close, up to rounding, and only the latest twenty-four
/// bars count.
pub proof fn day_counts_the_latest_bars(first: Bar, bars: Seq<Bar>, i: int)
    requires
        0 <= i < recent_values(bars).len(),
        recent_values(bars)[i].finite(),
    ensures
        ({
            let b = bars[bars.len() - 1 - i];
            is_product(recent_values(bars)[i], b.volume, b.close)
        }),
        bars.len() >= 24 ==> recent_values(seq![first] + bars) == recent_values(bars),
        recent_values(bars).len() <= 24,
{
    let b = bars[bars.len() - 1 - i];
    lemma_operations_are_close(b.volume, b.close);
    if bars.len() >= 24 {
        assert(recent_values(seq![first] + bars) =~= recent_values(bars));
    }
}

/// The square of a volatility per year is the variance of the returns times the bars of a
/// year, up to rounding.
pub proof fn volatility_scales_with_the_year(rets: Seq<Real>, bars_per_year: Real)
    requires
        rets.len() > 0,
        ({
            let n = Real::count(rets.len() as usize);
            let total = sum_of_seq(squared_deviations(rets, mean_of(rets)));
            &&& n.finite() && n.value() != 0
            &&& total.finite()
            &&& (total / n * bars_per_year).finite()
            &&& Real::whole(0) <= total / n * bars_per_year
        }),
    ensures
        ({
            let n = Real::count(rets.len() as usize);
            let total = sum_of_seq(squared_deviations(rets, mean_of(rets)));
            let v = annual_vol_of(rets, bars_per_year).value();
            exists|variance: Real, scaled: Real|
                #![trigger is_quotient(variance, total, n), is_product(
                    scaled,
                    variance,
                    bars_per_year,
                )]
                is_quotient(variance, total, n) && is_product(scaled, variance, bars_per_year)
                    && size(v * v - scaled.value() * pow2(1074)) * PARTS <= 3 * (v * v)
        }),
{
    let n = Real::count(rets.len() as usize);
    let total = sum_of_seq(squared_deviations(rets, mean_of(rets)));
    let variance = total / n;
    let scaled = variance * bars_per_year;
    lemma_finite_factors(variance, bars_per_year);
    lemma_operations_are_close(total, n);
    lemma_operations_are_close(variance, bars_per_year);
    lemma_root_near(scaled);
    assert(is_quotient(variance, total, n) && is_product(scaled, variance, bars_per_year));
}

/// The volatility ratio is that of hourly to daily returns, both per year, up to rounding.
pub proof fn volatility_ratio_compares_the_years(hourly: Seq<Real>, daily: Seq<Real>)
    requires
        ({
            let long = annual_vol_of(daily, Real::whole(365));
            &&& Real::ratio(1, 10_000_000_000) <= long
            &&& long.finite()
            &&& annual_vol_of(hourly, Real::whole(8760)).finite()
            &&& volatility_ratio_of(hourly, daily).finite()
        }),
    ensures
        is_quotient(
            volatility_ratio_of(hourly, daily),
            annual_vol_of(hourly, Real::whole(8760)),
            annual_vol_of(daily, Real::whole(365)),
        ),
{
    let long = annual_vol_of(daily, Real::whole(365));
    lemma_small_ratio(10_000_000_000);
    lemma_order_key(Real::ratio(1, 10_000_000_000), long);
    lemma_operations_are_close(annual_vol_of(hourly, Real::whole(8760)), long);
}

/// A share of the power is a power over their sum, up to rounding.
pub proof fn band_share_is_a_share_of_the_power(powers: Seq<Real>, i: int)
    requires
        0 <= i < powers.len(),
        powers[i].finite(),
        sum_of_seq(powers).finite(),
        tiny20() <= sum_of_seq(powers),
        shares_of(powers)[i].finite(),
    ensures
        is_quotient(shares_of(powers)[i], powers[i], sum_of_seq(powers)),
{
    lemma_tiny20();
    lemma_order_key(tiny20(), sum_of_seq(powers));
    lemma_operations_are_close(powers[i], sum_of_seq(powers));
}

proof fn lemma_tiny20()
    ensures
        tiny20().finite(),
        tiny20().value() > 0,
{
    lemma_units_zero(tiny20().mag());
    lemma_zero_value(tiny20());
}

/// The dominant period is one of those asked for, and no band has more power.
pub proof fn dominant_period_has_the_most_power(
    r: FrequencyFeatures,
    f: Oracle,
    signal: Seq<Real>,
)
    requires
        are_features(r, f, signal),
        all_numbers(band_shares(f, signal)),
    ensures
        r.band_powers@.len() == N_BANDS,
        exists|i: int|
            0 <= i < N_BANDS && r.dominant_period == Real::count(#[trigger] spec_target_period(i))
                && forall|j: int|
                0 <= j < N_BANDS ==> #[trigger] r.band_powers@[j] <= r.band_powers@[i],
{
    let shares = band_shares(f, signal);
    lemma_last_max(shares);
    let i = last_max(shares);
    assert(r.dominant_period == Real::count(spec_target_period(i)));
    assert forall|j: int| 0 <= j < N_BANDS implies #[trigger] r.band_powers@[j]
        <= r.band_powers@[i] by {
        assert(shares[j] <= shares[i]);
    }
}

/// The noise ratio compares the power of the two short periods with that of the three long
/// ones, up to rounding.
pub proof fn noise_ratio_compares_short_with_long(shares: Seq<Real>)
    requires
        shares.len() == 5,
        ({
            let (short, long) = (
                sum_of_seq(seq![shares[0], shares[1]]),
                sum_of_seq(seq![shares[2], shares[3], shares[4]]),
            );
            &&& short.finite() && long.finite()
            &&& Real::ratio(1, 1_000_000_000_000_000) <= long
            &&& noise_ratio_of(shares).finite()
        }),
    ensures
        is_quotient(
            noise_ratio_of(shares),
            sum_of_seq(seq![shares[0], shares[1]]),
            sum_of_seq(seq![shares[2], shares[3], shares[4]]),
        ),
{
    let (short, long) = (
        sum_of_seq(seq![shares[0], shares[1]]),
        sum_of_seq(seq![shares[2], shares[3], shares[4]]),
    );
    lemma_small_ratio(1_000_000_000_000_000);
    lemma_order_key(Real::ratio(1, 1_000_000_000_000_000), long);
    if long.max(Real::ratio(1, 1_000_000_000_000_000)) != long {
        crate::num::rules::lemma_same_value(long, Real::ratio(1, 1_000_000_000_000_000));
    }
    lemma_operations_are_close(short, long);
}

/// A signal without deviations has no power at any period.
pub proof fn flat_signal_has_no_power(
    f: Oracle,
    signal: Seq<Real>,
    n: usize,
    period: usize,
)
    requires
        forall|i: int| 0 <= i < signal.len() ==> (#[trigger] signal[i]).zero(),
        f(Elementary::Cos(
            angle_of(n, period),
        )).finite(),
        f(Elementary::Sin(
            angle_of(n, period),
        )).finite(),
        (Real::whole(2) * f(
            Elementary::Cos(
                angle_of(n, period),
            ),
        )).finite(),
    ensures
        goertzel_of(f, signal, n, period).0.zero(),
        goertzel_of(f, signal, n, period).1.zero(),
{
    lemma_whole(0);
    assert(0 * pow2(1074) == 0);
    lemma_units_zero(0);
    lemma_zero_value(Real::whole(0));
    let angle = angle_of(n, period);
    let cos = f(Elementary::Cos(angle));
    let sin = f(Elementary::Sin(angle));
    let c = Real::whole(2) * cos;
    lemma_flat_state(signal, c, signal.len());
    let (s1, s2) = goertzel_state(signal, c, signal.len());
    lemma_times_zero(cos, s1);
    lemma_times_zero(sin, s1);
    lemma_zero_value(s2);
    lemma_zero_value(s2.neg());
    lemma_zero_value(s1 * cos);
    lemma_plus_zero(s1 * cos, s2.neg());
    lemma_zero_value(s1 * cos - s2);
}

proof fn lemma_flat_state(signal: Seq<Real>, c: Real, n: nat)
    requires
        n <= signal.len(),
        forall|i: int| 0 <= i < signal.len() ==> (#[trigger] signal[i]).zero(),
        c.finite(),
    ensures
        goertzel_state(signal, c, n).0.zero(),
        goertzel_state(signal, c, n).1.zero(),
    decreases n,
{
    lemma_whole(0);
    assert(0 * pow2(1074) == 0);
    lemma_units_zero(0);
    lemma_zero_value(Real::whole(0));
    if n > 0 {
        lemma_flat_state(signal, c, (n - 1) as nat);
        let (s1, s2) = goertzel_state(signal, c, (n - 1) as nat);
        let x = signal[n - 1];
        assert(x.zero());
        lemma_times_zero(c, s1);
        lemma_zero_value(x);
        lemma_plus_zero(x, c * s1);
        let t = x + c * s1;
        lemma_zero_value(t);
        lemma_zero_value(s2);
        lemma_zero_value(s2.neg());
        lemma_plus_zero(t, s2.neg());
        lemma_zero_value(t - s2);
    }
}

/// Without a gap between the price and its prediction, level and velocity stay as
/// predicted: the level moves on by the velocity.
pub proof fn predicted_price_moves_nothing(kf: KalmanFilter, price: Real)
    requires
        kf.x.x.finite(),
        kf.x.y.finite(),
        (kf.x.x + kf.x.y).finite(),
        price.finite(),
        price == kf.x.x + kf.x.y,
        price.value() != 0,
        kf.x.y.value() != 0,
        gains(kf).0.finite(),
        gains(kf).1.finite(),
    ensures
        kf.updated(price).x.x.value() == price.value(),
        kf.updated(price).x.y.value() == kf.x.y.value(),
        kf.updated(price).q == kf.q,
        kf.updated(price).r == kf.r,
{
    let (zero, one) = (Real::whole(0), Real::whole(1));
    let w = pow2(1074) as int;
    lemma_pow2_pos(1074);
    lemma_whole(0);
    lemma_whole(1);
    assert(0 * w == 0 && 1 * w == w);
    lemma_units_zero(0);
    lemma_zero_value(zero);
    let (l, v) = (kf.x.x, kf.x.y);
    lemma_times_one(l);
    lemma_times_one(v);
    lemma_times_zero(l, zero);
    lemma_plus_zero(v, zero * l);
    let xp = one * l + one * v;
    let vp = zero * l + one * v;
    assert(xp == price);
    assert(vp == v);
    lemma_times_one(xp);
    lemma_times_zero(vp, zero);
    lemma_plus_zero(xp, zero * vp);
    let y = price - (one * xp + zero * vp);
    assert(y.zero()) by {
        lemma_difference_sign(price, price);
        lemma_zero_value(price - price);
    }
    let k = gains(kf);
    lemma_times_zero(k.0, y);
    lemma_times_zero(k.1, y);
    lemma_plus_zero(xp, k.0 * y);
    lemma_plus_zero(vp, k.1 * y);
}

/// The gains of level and velocity.
pub open spec fn gains(kf: KalmanFilter) -> (Real, Real) {
    let f = crate::features::kalman::one_bar();
    let h = crate::num::linear::Vec2::new(Real::whole(1), Real::whole(0));
    let p_pred = f.times(kf.p).times(f.transposed()).plus(kf.q);
    let ph = p_pred.apply(h);
    let s = h.dot(ph) + kf.r;
    (ph.x / s, ph.y / s)
}

/// Level and velocity move by their gains times the gap between the price and the
/// prediction, up to rounding.
pub proof fn filter_moves_by_its_gains(kf: KalmanFilter, price: Real)
    requires
        kf.updated(price).x.x.finite(),
        kf.updated(price).x.y.finite(),
    ensures
        ({
            let f = crate::features::kalman::one_bar();
            let h = crate::num::linear::Vec2::new(Real::whole(1), Real::whole(0));
            let before = f.apply(kf.x);
            let gap = price - h.dot(before);
            let after = kf.updated(price).x;
            exists|a: Real, b: Real|
                #![trigger is_product(a, gains(kf).0, gap), is_product(b, gains(kf).1, gap)]
                is_product(a, gains(kf).0, gap) && is_product(b, gains(kf).1, gap) && is_sum(
                    after.x,
                    before.x,
                    a,
                ) && is_sum(after.y, before.y, b)
        }),
{
    let f = crate::features::kalman::one_bar();
    let h = crate::num::linear::Vec2::new(Real::whole(1), Real::whole(0));
    let before = f.apply(kf.x);
    let gap = price - h.dot(before);
    let k = gains(kf);
    let (a, b) = (k.0 * gap, k.1 * gap);
    assert(kf.updated(price).x.x == before.x + a);
    assert(kf.updated(price).x.y == before.y + b);
    lemma_finite_terms(before.x, a);
    lemma_finite_terms(before.y, b);
    lemma_operations_are_close(k.0, gap);
    lemma_operations_are_close(k.1, gap);
    lemma_operations_are_close(before.x, a);
    lemma_operations_are_close(before.y, b);
    assert(is_product(a, k.0, gap) && is_product(b, k.1, gap));
}

/// A sample without the mean is the sample less the mean of all, up to rounding.
pub proof fn mean_is_taken_out(signal: Seq<Real>, i: int)
    requires
        0 <= i < signal.len(),
        demeaned_of(signal)[i].finite(),
    ensures
        demeaned_of(signal).len() == signal.len(),
        is_sum(demeaned_of(signal)[i], signal[i], mean_of(signal).neg()),
{
    lemma_operations_are_close(signal[i], mean_of(signal));
}

/// A power is the sum of the squares of both parts of its coefficient, up to rounding.
pub proof fn power_is_the_square_of_the_coefficient(spectrum: Seq<(Real, Real)>, i: int)
    requires
        0 <= i < spectrum.len(),
        powers_of(spectrum)[i].finite(),
    ensures
        exists|a: Real, b: Real|
            #![trigger is_product(a, spectrum[i].0, spectrum[i].0), is_product(
                b,
                spectrum[i].1,
                spectrum[i].1,
            )]
            is_product(a, spectrum[i].0, spectrum[i].0) && is_product(
                b,
                spectrum[i].1,
                spectrum[i].1,
            ) && is_sum(powers_of(spectrum)[i], a, b),
{
    let (re, im) = spectrum[i];
    let (a, b) = (re * re, im * im);
    lemma_finite_terms(a, b);
    lemma_operations_are_close(re, re);
    lemma_operations_are_close(im, im);
    lemma_operations_are_close(a, b);
    assert(is_product(a, spectrum[i].0, spectrum[i].0) && is_product(
        b,
        spectrum[i].1,
        spectrum[i].1,
    ));
}

/// Each step of the recursion adds the sample and the coefficient times the latest value,
/// and takes the one before away, up to rounding; what was latest comes second.
pub proof fn recursion_resonates(signal: Seq<Real>, c: Real, n: nat)
    requires
        n < signal.len(),
        goertzel_state(signal, c, n + 1).0.finite(),
    ensures
        ({
            let (a, b) = goertzel_state(signal, c, n);
            let (x, y) = goertzel_state(signal, c, n + 1);
            &&& y == a
            &&& exists|echo: Real, driven: Real|
                #![trigger is_product(echo, c, a), is_sum(driven, signal[n as int], echo)]
                is_product(echo, c, a) && is_sum(driven, signal[n as int], echo) && is_sum(
                    x,
                    driven,
                    b.neg(),
                )
        }),
{
    let (a, b) = goertzel_state(signal, c, n);
    let echo = c * a;
    let driven = signal[n as int] + echo;
    lemma_finite_terms(driven, b.neg());
    lemma_finite_terms(signal[n as int], echo);
    lemma_operations_are_close(c, a);
    lemma_operations_are_close(signal[n as int], echo);
    lemma_operations_are_close(driven, b);
    assert(is_product(echo, c, a) && is_sum(driven, signal[n as int], echo));
}

/// The two parts of a coefficient are the latest value turned by the angle, less the one
/// before, up to rounding; a signal shorter than the period has none.
pub proof fn coefficient_is_turned_by_the_angle(
    f: Oracle,
    signal: Seq<Real>,
    n: usize,
    period: usize,
)
    requires
        goertzel_of(f, signal, n, period).0.finite(),
        goertzel_of(f, signal, n, period).1.finite(),
    ensures
        ({
            let angle = angle_of(n, period);
            let (cos, sin) = (f(Elementary::Cos(angle)), f(Elementary::Sin(angle)));
            let (s1, s2) = goertzel_state(signal, Real::whole(2) * cos, signal.len());
            let (re, im) = goertzel_of(f, signal, n, period);
            &&& period == 0 || n < period ==> re == Real::whole(0) && im == Real::whole(0)
            &&& 0 < period <= n ==> is_product(im, s1, sin) && exists|t: Real| #[trigger]
                is_product(t, s1, cos) && is_sum(re, t, s2.neg())
        }),
{
    let angle = angle_of(n, period);
    let (cos, sin) = (f(Elementary::Cos(angle)), f(Elementary::Sin(angle)));
    let (s1, s2) = goertzel_state(signal, Real::whole(2) * cos, signal.len());
    if 0 < period <= n {
        let t = s1 * cos;
        lemma_finite_terms(t, s2.neg());
        lemma_operations_are_close(s1, sin);
        lemma_operations_are_close(s1, cos);
        lemma_operations_are_close(t, s2);
        assert(is_product(t, s1, cos));
    }
}

} // verus!
