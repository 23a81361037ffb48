//! What the fused distribution and the signals mean.
use vstd::arithmetic::power2::{lemma_pow2_pos, pow2};
use vstd::prelude::*;

use crate::ensemble::distribution::{entropy_confidence, off_zero, unit, SignalOutput};
use crate::ensemble::fusion::{
    bounded_ofi, ema_after, frequency_output, fused_count, kalman_output, mixture,
    orderbook_output, weighted, Moment,
};
use crate::estimation::posterior::{normal_cdf_of, StatePosterior};
use crate::features::frequency::scores_of;
use crate::num::drift::{exact_sum, lemma_add_mag, size, sizes, PARTS};
use crate::num::elementary::{ln_of, Oracle};
use crate::num::magnitude::lemma_units_zero;
use crate::num::model::BINADE;
use crate::num::ops::lemma_order_key;
use crate::num::order::lemma_whole;
use crate::num::rules::{
    is_product, lemma_finite_factors, lemma_finite_terms, lemma_plus_zero, lemma_product_near,
    lemma_same_value, lemma_sum_near, lemma_times_one, lemma_times_zero, lemma_zero_value,
};
use crate::num::series::{sum_of_seq, tally};
use crate::num::Real;
use crate::orderbook::hawkes::HawkesProcess;

verus! {

/// A number of a signal.
pub enum Field {
    Up,
    Down,
    Mean,
    /// Second moment about a centre: the square of the deviation and that of the mean's
    /// distance from the centre.
    Spread(Real),
}

/// The number of a signal that a field names.
pub open spec fn field_of(s: SignalOutput, x: Field) -> Real {
    match x {
        Field::Up => s.p_up,
        Field::Down => s.p_down,
        Field::Mean => s.predictive_mean,
        Field::Spread(centre) => s.predictive_std * s.predictive_std + (s.predictive_mean - centre)
            * (s.predictive_mean - centre),
    }
}

/// The exact sum of weight times number over the present ones of the first `n` signals.
pub open spec fn exact_average(
    signals: Seq<Option<SignalOutput>>,
    weights: Seq<Real>,
    x: Field,
    n: nat,
) -> int
    decreases n,
{
    if n == 0 {
        0
    } else {
        exact_average(signals, weights, x, (n - 1) as nat) + match signals[n - 1] {
            Some(s) => weights[n - 1].value() * field_of(s, x).value(),
            None => 0,
        }
    }
}

/// The exact sum of the sizes of weight times number.
pub open spec fn exact_size(
    signals: Seq<Option<SignalOutput>>,
    weights: Seq<Real>,
    x: Field,
    n: nat,
) -> int
    decreases n,
{
    if n == 0 {
        0
    } else {
        exact_size(signals, weights, x, (n - 1) as nat) + match signals[n - 1] {
            Some(s) => size(weights[n - 1].value() * field_of(s, x).value()),
            None => 0,
        }
    }
}

/// The integer within bounds that is nearest to another.
pub open spec fn within(lo: int, e: int, hi: int) -> int {
    if e < lo {
        lo
    } else if e > hi {
        hi
    } else {
        e
    }
}

/// The weights and the numbers of the present signals are finite, and so is the sum of
/// their products' sizes.
pub open spec fn fuses(
    signals: Seq<Option<SignalOutput>>,
    weights: Seq<Real>,
    x: Field,
    n: nat,
) -> bool {
    sum_of_seq(sizes(products(signals, weights, x, n))).finite()
}

/// The products of weight and number over the present ones of the first `n` signals.
pub open spec fn products(
    signals: Seq<Option<SignalOutput>>,
    weights: Seq<Real>,
    x: Field,
    n: nat,
) -> Seq<Real>
    decreases n,
{
    if n == 0 {
        Seq::empty()
    } else {
        let before = products(signals, weights, x, (n - 1) as nat);
        match signals[n - 1] {
            Some(s) => before.push(weights[n - 1] * field_of(s, x)),
            None => before,
        }
    }
}

/// By how much a fused number may stray.
pub open spec fn fusing_error(
    signals: Seq<Option<SignalOutput>>,
    weights: Seq<Real>,
    x: Field,
    n: nat,
) -> int {
    let s = products(signals, weights, x, n);
    exact_size(signals, weights, x, n) + n * (4 * sum_of_seq(sizes(s)).value() * pow2(1074)) + n * (
    pow2(1074) * BINADE)
}

proof fn lemma_products(
    signals: Seq<Option<SignalOutput>>,
    weights: Seq<Real>,
    x: Field,
    n: nat,
)
    requires
        fuses(signals, weights, x, n),
    ensures
        products(signals, weights, x, n).len() <= n,
        exact_size(signals, weights, x, n) >= 0,
        size(
            exact_sum(products(signals, weights, x, n)) * pow2(1074) - exact_average(
                signals,
                weights,
                x,
                n,
            ),
        ) * PARTS <= exact_size(signals, weights, x, n) + n * (pow2(1074) * BINADE),
    decreases n,
{
    let w = pow2(1074) as int;
    lemma_pow2_pos(1074);
    if n == 0 {
        assert(0 * (w * BINADE) == 0);
    } else {
        let k = (n - 1) as nat;
        let (s, before) = (products(signals, weights, x, n), products(signals, weights, x, k));
        let kk = k as int;
        assert(kk * (w * BINADE) + w * BINADE == (kk + 1) * (w * BINADE)) by (nonlinear_arith);
        assert(w * BINADE >= 0) by (nonlinear_arith)
            requires
                w > 0,
        ;
        match signals[n - 1] {
            Some(o) => {
                let (a, b) = (weights[n - 1], field_of(o, x));
                let v = a * b;
                assert(s.drop_last() =~= before);
                let t = sizes(s);
                assert(t.drop_last() =~= sizes(before));
                assert(t.last() == v.abs());
                lemma_finite_terms(sum_of_seq(t.drop_last()), t.last());
                lemma_products(signals, weights, x, k);
                lemma_finite_factors(a, b);
                lemma_product_near(a, b);
                let (e0, x0, y) = (
                    exact_sum(before),
                    exact_average(signals, weights, x, k),
                    a.value() * b.value(),
                );
                let vv = v.value();
                assert((e0 + vv) * w - (x0 + y) == (e0 * w - x0) + (vv * w - y))
                    by (nonlinear_arith);
                let (c, d) = (e0 * w - x0, vv * w - y);
                assert(size(c + d) * PARTS <= size(c) * PARTS + size(d) * PARTS)
                    by (nonlinear_arith);
            },
            None => {
                lemma_products(signals, weights, x, k);
            },
        }
    }
}

/// A tally of a sequence with a finite sum is that sum, but for the sign of zero.
proof fn lemma_tally_value(s: Seq<Real>)
    requires
        sum_of_seq(sizes(s)).finite(),
    ensures
        tally(s).finite(),
        tally(s).value() == sum_of_seq(s).value(),
    decreases s.len(),
{
    lemma_sum_near(s);
    lemma_whole(0);
    assert(0 * pow2(1074) == 0);
    lemma_units_zero(0);
    if s.len() > 0 {
        let (t, x) = (s.drop_last(), s.last());
        assert(sizes(s).drop_last() =~= sizes(t));
        lemma_finite_terms(sum_of_seq(sizes(t)), sizes(s).last());
        lemma_tally_value(t);
        lemma_sum_near(t);
        lemma_finite_terms(sum_of_seq(t), x);
        lemma_add_mag(tally(t), x);
        lemma_add_mag(sum_of_seq(t), x);
    }
}

proof fn lemma_fused(
    signals: Seq<Option<SignalOutput>>,
    weights: Seq<Real>,
    x: Field,
    n: nat,
)
    requires
        fuses(signals, weights, x, n),
    ensures
        ({
            let t = tally(products(signals, weights, x, n));
            &&& t.finite()
            &&& size(t.value() * pow2(1074) - exact_average(signals, weights, x, n)) * PARTS
                <= fusing_error(signals, weights, x, n)
        }),
{
    let s = products(signals, weights, x, n);
    let w = pow2(1074) as int;
    lemma_pow2_pos(1074);
    lemma_products(signals, weights, x, n);
    lemma_tally_value(s);
    lemma_sum_near(s);
    let (t, e, a) = (tally(s).value(), exact_sum(s), exact_average(signals, weights, x, n));
    let g = sum_of_seq(sizes(s)).value();
    let (c, d) = (t - e, e * w - a);
    let (m, l) = (n as int, s.len() as int);
    assert(t * w - a == c * w + d) by (nonlinear_arith)
        requires
            c == t - e,
            d == e * w - a,
    ;
    assert(size(c * w) * PARTS <= m * (4 * g * w)) by (nonlinear_arith)
        requires
            size(c) * PARTS <= l * (4 * g),
            0 <= l <= m,
            g >= 0,
            w > 0,
    ;
    let cw = c * w;
    assert(size(cw + d) * PARTS <= size(cw) * PARTS + size(d) * PARTS) by (nonlinear_arith);
}

proof fn lemma_weighted_fields(
    f: Oracle,
    signals: Seq<Option<SignalOutput>>,
    weights: Seq<Real>,
    centre: Real,
    n: nat,
)
    ensures
        weighted(f, signals, weights, Moment::Spread(centre), n) == products(
            signals,
            weights,
            Field::Spread(centre),
            n,
        ),
        weighted(f, signals, weights, Moment::Up, n) == products(signals, weights, Field::Up, n),
        weighted(f, signals, weights, Moment::Down, n) == products(
            signals,
            weights,
            Field::Down,
            n,
        ),
        weighted(f, signals, weights, Moment::Mean, n) == products(
            signals,
            weights,
            Field::Mean,
            n,
        ),
    decreases n,
{
    if n > 0 {
        lemma_weighted_fields(f, signals, weights, centre, (n - 1) as nat);
    }
}

/// The fused probabilities and the fused mean are the averages of those of the present
/// signals under their weights, up to rounding; a probability stays between zero and one.
pub proof fn fused_numbers_are_weighted_averages(
    f: Oracle,
    ema: Seq<Real>,
    floor: Real,
    signals: Seq<Option<SignalOutput>>,
)
    requires
        ({
            let n = fused_count(ema, signals);
            let w = mixture(f, ema, floor, signals).weights;
            &&& fuses(signals, w, Field::Up, n)
            &&& fuses(signals, w, Field::Down, n)
            &&& fuses(signals, w, Field::Mean, n)
        }),
    ensures
        ({
            let n = fused_count(ema, signals);
            let m = mixture(f, ema, floor, signals);
            let (w, one) = (m.weights, pow2(1074) as int);
            &&& size(
                m.p_up.value() * one - within(0, exact_average(signals, w, Field::Up, n), one * one),
            ) * PARTS <= fusing_error(signals, w, Field::Up, n)
            &&& size(
                m.p_down.value() * one - within(
                    0,
                    exact_average(signals, w, Field::Down, n),
                    one * one,
                ),
            ) * PARTS <= fusing_error(signals, w, Field::Down, n)
            &&& size(m.mean.value() * one - exact_average(signals, w, Field::Mean, n)) * PARTS
                <= fusing_error(signals, w, Field::Mean, n)
        }),
{
    let n = fused_count(ema, signals);
    let m = mixture(f, ema, floor, signals);
    let w = m.weights;
    lemma_weighted_fields(f, signals, w, m.mean, n);
    lemma_fused(signals, w, Field::Up, n);
    lemma_fused(signals, w, Field::Down, n);
    lemma_fused(signals, w, Field::Mean, n);
    lemma_unit_close(
        tally(products(signals, w, Field::Up, n)),
        exact_average(signals, w, Field::Up, n),
        fusing_error(signals, w, Field::Up, n),
    );
    lemma_unit_close(
        tally(products(signals, w, Field::Down, n)),
        exact_average(signals, w, Field::Down, n),
        fusing_error(signals, w, Field::Down, n),
    );
}

/// Keeping a number between zero and one does not take it further from one that is there.
proof fn lemma_unit_close(t: Real, e: int, b: int)
    requires
        t.finite(),
        size(t.value() * pow2(1074) - e) * PARTS <= b,
    ensures
        size(unit(t).value() * pow2(1074) - within(0, e, (pow2(1074) * pow2(1074)) as int)) * PARTS <= b,
{
    let w = pow2(1074) as int;
    lemma_pow2_pos(1074);
    lemma_whole(0);
    lemma_whole(1);
    assert(0 * w == 0 && 1 * w == w);
    let (tv, uv) = (t.value(), unit(t).value());
    assert(uv == within(0, tv, w));
    assert(uv * w == within(0, tv * w, w * w)) by {
        assert(tv > w ==> tv * w > w * w) by (nonlinear_arith)
            requires
                w > 0,
        ;
        assert(tv <= w ==> tv * w <= w * w) by (nonlinear_arith)
            requires
                w > 0,
        ;
        assert(tv < 0 ==> tv * w < 0) by (nonlinear_arith)
            requires
                w > 0,
        ;
        assert(tv >= 0 ==> tv * w >= 0) by (nonlinear_arith)
            requires
                w > 0,
        ;
    }
    let (x, y) = (size(uv * w - within(0, e, w * w)), size(tv * w - e));
    assert(w * w >= 0) by (nonlinear_arith);
    assert(x <= y);
    assert(x * PARTS <= y * PARTS) by (nonlinear_arith)
        requires
            x <= y,
    ;
}

/// Where the past has no weight, the moving average of a present source is its latest
/// evidence within its bounds; where it has all of it, nothing changes.
pub proof fn moving_average_weighs_the_past(
    ema: Seq<Real>,
    signals: Seq<Option<SignalOutput>>,
    i: int,
    s: SignalOutput,
)
    requires
        0 <= i < ema.len(),
        i < signals.len(),
        signals[i] == Some(s),
        ema[i].finite(),
        s.log_evidence.finite(),
    ensures
        ({
            let new = ema_after(ema, signals, Real::whole(0))[i];
            let one = pow2(1074) as int;
            new.value() == within(-50 * one, s.log_evidence.value(), 0)
        }),
        ema_after(ema, signals, Real::whole(1))[i].value() == ema[i].value(),
{
    let one = pow2(1074) as int;
    let (zero, unity) = (Real::whole(0), Real::whole(1));
    lemma_pow2_pos(1074);
    lemma_whole(0);
    lemma_whole(1);
    lemma_whole(50);
    assert(0 * one == 0 && 1 * one == one);
    lemma_units_zero(0);
    lemma_zero_value(zero);
    lemma_zero_value(unity);
    lemma_zero_value(Real::whole(50));
    let le = s.log_evidence.clamp(Real::whole(50).neg(), zero);
    assert(le.finite() && le.value() == within(-50 * one, s.log_evidence.value(), 0)) by {
        lemma_order_key(s.log_evidence, zero);
        lemma_order_key(s.log_evidence, Real::whole(50).neg());
    }
    assert(unity - zero == unity) by {
        lemma_zero_value(zero.neg());
        lemma_plus_zero(unity, zero.neg());
    }
    lemma_times_one(le);
    lemma_times_zero(ema[i], zero);
    lemma_plus_zero(le, zero * ema[i]);
    lemma_times_one(ema[i]);
    let rest = unity - unity;
    assert(rest.zero()) by {
        crate::num::rules::lemma_difference_sign(unity, unity);
        lemma_zero_value(rest);
    }
    lemma_times_zero(le, rest);
    lemma_plus_zero(ema[i], rest * le);
}

/// Trend and noise: without entropy there is no noise, and without order no trend.
pub proof fn entropy_trades_trend_for_noise(ratio: Real)
    requires
        Real::whole(0) <= ratio,
        ratio.finite(),
    ensures
        scores_of(Real::whole(0), ratio).1.zero(),
        scores_of(Real::whole(1), ratio).0.zero(),
        scores_of(Real::whole(1), ratio).1.value() == within(
            0,
            ratio.value(),
            pow2(1074) as int,
        ),
        ratio <= Real::ratio(1, 10) ==> scores_of(Real::whole(0), ratio).0 == Real::whole(1),
{
    let (zero, one) = (Real::whole(0), Real::whole(1));
    let w = pow2(1074) as int;
    lemma_pow2_pos(1074);
    lemma_whole(0);
    lemma_whole(1);
    assert(0 * w == 0 && 1 * w == w);
    lemma_units_zero(0);
    lemma_zero_value(zero);
    lemma_zero_value(one);
    let tenth = Real::ratio(1, 10);
    crate::num::rules::lemma_small_ratio(10);
    lemma_order_key(tenth, one);
    lemma_order_key(ratio, tenth);
    lemma_order_key(ratio, one);
    let d = ratio.max(tenth);
    assert(d.finite() && d.value() > 0);
    lemma_zero_value(d);
    lemma_order_key(zero, d);
    crate::num::order::lemma_whole_order(0, 1);
    crate::num::order::lemma_div_monotone(one, one, d);
    let q = one / d;
    let m = q.min(one);
    assert(m.finite() && zero <= m && m <= one) by {
        lemma_order_key(zero, q);
        if !q.nan() {
            lemma_order_key(q, one);
        }
        lemma_order_key(zero, m);
        lemma_order_key(m, one);
        crate::num::rules::lemma_between(zero, m, one);
    }
    let o = one - one;
    crate::num::rules::lemma_difference_sign(one, one);
    lemma_zero_value(o);
    lemma_times_zero(m, o);
    lemma_zero_value(o * m);
    let n = ratio.min(one);
    assert(n.finite());
    lemma_times_zero(n, zero);
    lemma_zero_value(zero * n);
    lemma_times_one(n);
    assert(one - zero == one) by {
        lemma_zero_value(zero.neg());
        lemma_plus_zero(one, zero.neg());
    }
    lemma_times_one(m);
    if ratio <= tenth {
        assert(d == tenth || d.value() == tenth.value());
        if d != tenth {
            lemma_same_value(d, tenth);
        }
        crate::num::order::lemma_div_monotone(tenth, one, tenth);
        crate::num::rules::lemma_over_itself(tenth);
        assert(one <= q);
        if !q.nan() {
            lemma_order_key(one, q);
            lemma_order_key(q, one);
        }
        assert(m.value() == one.value());
        lemma_same_value(m, one);
    }
}

/// The mean of the signal of order arrivals is its imbalance at its deviation, up to
/// rounding, and has the sign of the imbalance.
pub proof fn arrivals_lean_with_the_imbalance(f: Oracle, hawkes: HawkesProcess)
    requires
        hawkes.intensity_ofi().finite(),
        orderbook_output(f, hawkes).predictive_std.finite(),
        orderbook_output(f, hawkes).predictive_mean.finite(),
    ensures
        ({
            let s = orderbook_output(f, hawkes);
            let ofi = bounded_ofi(hawkes);
            let one = pow2(1074) as int;
            &&& ofi.value() == within(-one, hawkes.intensity_ofi().value(), one)
            &&& is_product(s.predictive_mean, ofi, s.predictive_std)
            &&& ofi.value() >= 0 ==> s.predictive_mean.value() >= 0
            &&& ofi.value() <= 0 ==> s.predictive_mean.value() <= 0
        }),
{
    let s = orderbook_output(f, hawkes);
    let ofi = bounded_ofi(hawkes);
    let one = Real::whole(1);
    lemma_whole(0);
    lemma_whole(1);
    lemma_pow2_pos(1074);
    assert(0 * pow2(1074) == 0 && 1 * pow2(1074) == pow2(1074));
    lemma_zero_value(one);
    lemma_order_key(hawkes.intensity_ofi(), one);
    lemma_order_key(hawkes.intensity_ofi(), one.neg());
    lemma_product_near(ofi, s.predictive_std);
    crate::num::rules::lemma_operations_are_close(ofi, s.predictive_std);
    lemma_least_std(s.predictive_std);
    lemma_signed_product(ofi.value(), s.predictive_std.value());
}

proof fn lemma_signed_product(x: int, y: int)
    requires
        y >= 0,
    ensures
        x >= 0 ==> x * y >= 0,
        x <= 0 ==> x * y <= 0,
{
    assert(x >= 0 ==> x * y >= 0) by (nonlinear_arith)
        requires
            y >= 0,
    ;
    assert(x <= 0 ==> x * y <= 0) by (nonlinear_arith)
        requires
            y >= 0,
    ;
}

/// A deviation that is kept off zero is positive.
proof fn lemma_least_std(s: Real)
    requires
        exists|x: Real| s == #[trigger] x.max(Real::ratio(1, 10_000_000_000)),
    ensures
        s.value() > 0,
{
    let x = choose|x: Real| s == #[trigger] x.max(Real::ratio(1, 10_000_000_000));
    let least = Real::ratio(1, 10_000_000_000);
    crate::num::rules::lemma_small_ratio(10_000_000_000);
    if !x.nan() {
        lemma_order_key(x, least);
    }
}

/// Processes with exchanged background rates lean to opposite sides: the chance of up is
/// the other's chance of down.
pub proof fn exchanged_rates_exchange_the_chances(f: Oracle, a: HawkesProcess, b: HawkesProcess)
    requires
        a.intensity_ofi().finite(),
        a.intensity_ofi().value() != 0,
        b.intensity_ofi() == a.intensity_ofi().neg(),
        a.alpha_bb == b.alpha_bb,
        a.alpha_bs == b.alpha_bs,
    ensures
        ({
            let (s, t) = (orderbook_output(f, a), orderbook_output(f, b));
            &&& s.p_up == t.p_down
            &&& s.p_down == t.p_up
            &&& s.predictive_std == t.predictive_std
            &&& s.log_evidence == t.log_evidence
        }),
{
    let one = Real::whole(1);
    lemma_whole(0);
    lemma_whole(1);
    lemma_pow2_pos(1074);
    assert(0 * pow2(1074) == 0 && 1 * pow2(1074) == pow2(1074));
    lemma_zero_value(one);
    let (x, y) = (a.intensity_ofi(), b.intensity_ofi());
    lemma_zero_value(x);
    lemma_zero_value(y);
    lemma_order_key(x, one);
    lemma_order_key(x, one.neg());
    lemma_order_key(y, one);
    lemma_order_key(y, one.neg());
    let (u, v) = (bounded_ofi(a), bounded_ofi(b));
    assert(v == u.neg());
    lemma_zero_value(u);
    assert(v.neg() == u);
    assert(u.abs() == v.abs());
}

/// The signal of frequency features leans with the velocity, and with a velocity of the
/// other sign its chances are exchanged.
pub proof fn frequency_leans_with_the_velocity(
    f: Oracle,
    entropy: Real,
    ratio: Real,
    velocity: Real,
)
    requires
        velocity.finite(),
        velocity.value() != 0,
        ({
            let (trend, _) = scores_of(entropy, ratio);
            &&& trend.finite()
            &&& Real::whole(0) <= trend
            &&& !(trend * velocity.signum()).nan()
            &&& (trend * velocity.signum()).finite()
            &&& trend.sqrt().finite()
            &&& Real::whole(0) <= trend.sqrt()
            &&& (trend * velocity.signum() * trend.sqrt()).finite()
        }),
        frequency_output(f, entropy, ratio, velocity).predictive_mean.finite(),
        frequency_output(f, entropy, ratio, velocity).predictive_std.finite(),
    ensures
        ({
            let (s, t) = (
                frequency_output(f, entropy, ratio, velocity),
                frequency_output(f, entropy, ratio, velocity.neg()),
            );
            &&& s.p_up == t.p_down
            &&& s.p_down == t.p_up
            &&& s.predictive_std == t.predictive_std
            &&& s.log_evidence == t.log_evidence
            &&& velocity.value() > 0 ==> s.predictive_mean.value() >= 0
            &&& velocity.value() < 0 ==> s.predictive_mean.value() <= 0
        }),
{
    let (trend, _) = scores_of(entropy, ratio);
    let (zero, one) = (Real::whole(0), Real::whole(1));
    lemma_whole(0);
    lemma_whole(1);
    lemma_pow2_pos(1074);
    assert(0 * pow2(1074) == 0 && 1 * pow2(1074) == pow2(1074));
    lemma_zero_value(velocity);
    lemma_zero_value(one);
    let g = velocity.signum();
    assert(velocity.neg().signum() == g.neg());
    let root = trend.sqrt();
    crate::num::rules::lemma_negated_factor(trend, g);
    let x = trend * g;
    crate::num::rules::lemma_negated_factor(x, root);
    let bias = x * root;
    let other = trend * velocity.neg().signum() * root;
    assert(other == bias.neg());
    lemma_zero_value(bias);
    assert(other.neg() == bias);
    let s = frequency_output(f, entropy, ratio, velocity);
    lemma_product_near(trend, g);
    lemma_product_near(x, root);
    lemma_product_near(bias, s.predictive_std);
    lemma_least_std(s.predictive_std);
    assert(velocity.value() > 0 ==> g == one);
    assert(velocity.value() < 0 ==> g == one.neg());
    lemma_order_key(zero, trend);
    lemma_order_key(zero, root);
    lemma_signed_product(g.value(), trend.value());
    assert(trend.value() * g.value() == g.value() * trend.value()) by (nonlinear_arith);
    lemma_signed_product(x.value(), root.value());
    lemma_signed_product(bias.value(), s.predictive_std.value());
}

/// The distribution function that is supplied gives no less to a number above zero than to
/// one below it.
pub open spec fn favours_the_right(f: Oracle) -> bool {
    forall|x: Real, y: Real|
        x <= Real::whole(0) && Real::whole(0) <= y ==> #[trigger] normal_cdf_of(f, x)
            <= #[trigger] normal_cdf_of(f, y)
}

/// The two sides of a quotient by a positive number.
proof fn lemma_sides(a: Real, s: Real)
    requires
        a.finite(),
        a.value() >= 0,
        s.finite(),
        s.value() > 0,
    ensures
        Real::whole(0) <= a / s,
        a.neg() / s <= Real::whole(0),
        a.neg() / s == (a / s).neg(),
{
    let zero = Real::whole(0);
    lemma_whole(0);
    assert(0 * pow2(1074) == 0);
    lemma_zero_value(a);
    lemma_zero_value(s);
    lemma_order_key(zero, a);
    lemma_order_key(zero, s);
    crate::num::order::lemma_div_monotone(a, a, s);
    crate::num::rules::lemma_negated_term(a, s);
    crate::num::order::lemma_neg_order(zero, a / s);
    lemma_zero_value(a / s);
    lemma_zero_value(zero);
    lemma_order_key((a / s).neg(), zero);
}

/// Keeping numbers within bounds keeps their order.
proof fn lemma_bounded_order(x: Real, y: Real, lo: Real, hi: Real)
    requires
        x <= y,
        lo <= hi,
    ensures
        x.clamp(lo, hi) <= y.clamp(lo, hi),
{
    lemma_order_key(x, y);
    lemma_order_key(lo, hi);
    lemma_order_key(x, lo);
    lemma_order_key(y, lo);
    lemma_order_key(x, hi);
    lemma_order_key(y, hi);
}

/// Where the filter expects no loss, its signal gives up no less a chance than down; where
/// it expects no gain, no more.
pub proof fn filter_favours_its_expectation(f: Oracle, p: StatePosterior)
    requires
        favours_the_right(f),
        p.expected_return().finite(),
        p.predictive_std().finite(),
    ensures
        ({
            let s = kalman_output(f, p);
            &&& p.expected_return().value() >= 0 ==> s.p_down <= s.p_up
            &&& p.expected_return().value() <= 0 ==> s.p_up <= s.p_down
        }),
{
    let (r, s) = (p.expected_return(), p.predictive_std());
    lemma_least_std(s);
    lemma_zero_value(r);
    lemma_zero_value(r.neg());
    crate::num::order::lemma_whole_order(0, 1);
    if r.value() >= 0 {
        lemma_sides(r, s);
        lemma_bounded_order(
            normal_cdf_of(f, r.neg() / s),
            normal_cdf_of(f, r / s),
            Real::whole(0),
            Real::whole(1),
        );
    }
    if r.value() <= 0 {
        lemma_sides(r.neg(), s);
        assert(r.neg().neg() == r);
        lemma_bounded_order(
            normal_cdf_of(f, r / s),
            normal_cdf_of(f, r.neg() / s),
            Real::whole(0),
            Real::whole(1),
        );
    }
}

/// Where buys outweigh sells, the signal of order arrivals gives up no less a chance than
/// down.
pub proof fn arrivals_favour_the_heavier_side(f: Oracle, hawkes: HawkesProcess)
    requires
        favours_the_right(f),
        hawkes.intensity_ofi().finite(),
        orderbook_output(f, hawkes).predictive_std.finite(),
        (bounded_ofi(hawkes) / orderbook_output(f, hawkes).predictive_std).finite(),
        (bounded_ofi(hawkes).neg() / orderbook_output(f, hawkes).predictive_std).finite(),
    ensures
        ({
            let s = orderbook_output(f, hawkes);
            &&& hawkes.intensity_ofi().value() >= 0 ==> s.p_down <= s.p_up
            &&& hawkes.intensity_ofi().value() <= 0 ==> s.p_up <= s.p_down
        }),
{
    let s = orderbook_output(f, hawkes).predictive_std;
    let (ofi, half, one) = (bounded_ofi(hawkes), Real::ratio(1, 2), Real::whole(1));
    lemma_whole(0);
    lemma_whole(1);
    lemma_pow2_pos(1074);
    lemma_pow2_pos(1073);
    assert(0 * pow2(1074) == 0 && 1 * pow2(1074) == pow2(1074));
    lemma_zero_value(one);
    lemma_order_key(hawkes.intensity_ofi(), one);
    lemma_order_key(hawkes.intensity_ofi(), one.neg());
    lemma_least_std(s);
    lemma_zero_value(ofi);
    lemma_zero_value(ofi.neg());
    crate::num::order::lemma_ratio_order(1, 100, 99, 100);
    if ofi.value() >= 0 {
        lemma_sides(ofi, s);
        lemma_halved_sides(ofi.neg() / s, ofi / s);
        lemma_bounded_order(
            normal_cdf_of(f, ofi.neg() / s * half),
            normal_cdf_of(f, ofi / s * half),
            Real::ratio(1, 100),
            Real::ratio(99, 100),
        );
    }
    if ofi.value() <= 0 {
        lemma_sides(ofi.neg(), s);
        assert(ofi.neg().neg() == ofi);
        lemma_halved_sides(ofi / s, ofi.neg() / s);
        lemma_bounded_order(
            normal_cdf_of(f, ofi / s * half),
            normal_cdf_of(f, ofi.neg() / s * half),
            Real::ratio(1, 100),
            Real::ratio(99, 100),
        );
    }
}

/// Halving keeps numbers on their side of zero.
proof fn lemma_halved_sides(x: Real, y: Real)
    requires
        x.finite(),
        y.finite(),
        x <= Real::whole(0),
        Real::whole(0) <= y,
    ensures
        x * Real::ratio(1, 2) <= Real::whole(0),
        Real::whole(0) <= y * Real::ratio(1, 2),
{
    let half = Real::ratio(1, 2);
    lemma_whole(0);
    assert(0 * pow2(1074) == 0);
    crate::num::rules::lemma_half();
    lemma_pow2_pos(1073);
    crate::num::drift::lemma_mul_shrinks(x, half);
    crate::num::drift::lemma_mul_shrinks(y, half);
}

/// The signal of frequency features gives no less a chance to the side of the velocity.
pub proof fn frequency_favours_the_velocity(
    f: Oracle,
    entropy: Real,
    ratio: Real,
    velocity: Real,
)
    requires
        favours_the_right(f),
        velocity.finite(),
        velocity.value() != 0,
        ({
            let (trend, _) = scores_of(entropy, ratio);
            &&& trend.finite()
            &&& Real::whole(0) <= trend
            &&& (trend * velocity.signum()).finite()
            &&& Real::whole(0) <= trend.sqrt()
            &&& (trend * velocity.signum() * trend.sqrt()).finite()
        }),
        frequency_output(f, entropy, ratio, velocity).predictive_std.finite(),
    ensures
        ({
            let s = frequency_output(f, entropy, ratio, velocity);
            &&& velocity.value() > 0 ==> s.p_down <= s.p_up
            &&& velocity.value() < 0 ==> s.p_up <= s.p_down
        }),
{
    let (trend, _) = scores_of(entropy, ratio);
    let (zero, one) = (Real::whole(0), Real::whole(1));
    let s = frequency_output(f, entropy, ratio, velocity).predictive_std;
    lemma_whole(0);
    lemma_whole(1);
    lemma_pow2_pos(1074);
    assert(0 * pow2(1074) == 0 && 1 * pow2(1074) == pow2(1074));
    lemma_zero_value(velocity);
    lemma_zero_value(one);
    let g = velocity.signum();
    let root = trend.sqrt();
    let x = trend * g;
    let bias = x * root;
    lemma_finite_factors(x, root);
    lemma_product_near(trend, g);
    lemma_product_near(x, root);
    assert(velocity.value() > 0 ==> g == one);
    assert(velocity.value() < 0 ==> g == one.neg());
    lemma_order_key(zero, trend);
    lemma_order_key(zero, root);
    lemma_signed_product(g.value(), trend.value());
    assert(trend.value() * g.value() == g.value() * trend.value()) by (nonlinear_arith);
    lemma_signed_product(x.value(), root.value());
    lemma_least_std(s);
    lemma_zero_value(bias);
    lemma_zero_value(bias.neg());
    crate::num::order::lemma_ratio_order(1, 100, 99, 100);
    if velocity.value() > 0 {
        lemma_sides(bias, s);
        lemma_bounded_order(
            normal_cdf_of(f, bias.neg() / s),
            normal_cdf_of(f, bias / s),
            Real::ratio(1, 100),
            Real::ratio(99, 100),
        );
    } else {
        lemma_sides(bias.neg(), s);
        assert(bias.neg().neg() == bias);
        lemma_bounded_order(
            normal_cdf_of(f, bias / s),
            normal_cdf_of(f, bias.neg() / s),
            Real::ratio(1, 100),
            Real::ratio(99, 100),
        );
    }
}

/// The square of the fused deviation is the average, under the weights, of the signals'
/// second moments about the fused mean, up to rounding: their own spread and their
/// disagreement.
pub proof fn fused_deviation_covers_spread_and_disagreement(
    f: Oracle,
    ema: Seq<Real>,
    floor: Real,
    signals: Seq<Option<SignalOutput>>,
)
    requires
        ({
            let n = fused_count(ema, signals);
            let m = mixture(f, ema, floor, signals);
            let v = sum_of_seq(products(signals, m.weights, Field::Spread(m.mean), n));
            &&& fuses(signals, m.weights, Field::Spread(m.mean), n)
            &&& Real::whole(0) <= v
            &&& Real::ratio(1, 10_000_000_000) <= v.sqrt()
        }),
    ensures
        ({
            let n = fused_count(ema, signals);
            let m = mixture(f, ema, floor, signals);
            let one = pow2(1074) as int;
            let s = m.std.value();
            exists|v: int|
                size(v * one - exact_average(signals, m.weights, Field::Spread(m.mean), n)) * PARTS
                    <= fusing_error(signals, m.weights, Field::Spread(m.mean), n) && size(
                    s * s - #[trigger] (v * one),
                ) * PARTS <= 3 * (s * s)
        }),
{
    let n = fused_count(ema, signals);
    let m = mixture(f, ema, floor, signals);
    let x = Field::Spread(m.mean);
    lemma_weighted_fields(f, signals, m.weights, m.mean, n);
    lemma_fused(signals, m.weights, x, n);
    let all = products(signals, m.weights, x, n);
    lemma_tally_value(all);
    lemma_sum_near(all);
    let v = sum_of_seq(all);
    crate::num::rules::lemma_root_near(v);
    lemma_order_key(Real::ratio(1, 10_000_000_000), v.sqrt());
    assert(m.std == v.sqrt());
    let one = pow2(1074) as int;
    let u = v.value();
    assert(size(u * one - exact_average(signals, m.weights, x, n)) * PARTS <= fusing_error(
        signals,
        m.weights,
        x,
        n,
    ));
}

/// How sure three probabilities are does not depend on which of up and down is which.
pub proof fn confidence_has_no_direction(f: Oracle, up: Real, down: Real, flat: Real)
    requires
        !(off_zero(up) * ln_of(f, off_zero(up))).nan(),
        !(off_zero(down) * ln_of(f, off_zero(down))).nan(),
    ensures
        entropy_confidence(f, up, down, flat) == entropy_confidence(f, down, up, flat),
{
    crate::num::order::lemma_add_commutes(
        off_zero(up) * ln_of(f, off_zero(up)),
        off_zero(down) * ln_of(f, off_zero(down)),
    );
}

} // verus!
