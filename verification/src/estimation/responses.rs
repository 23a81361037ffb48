//! How the filter's variances, parameters and densities respond to a price.
use vstd::arithmetic::power2::{lemma_pow2_pos, pow2};
use vstd::prelude::*;

use crate::ensemble::distribution::unit;
use crate::ensemble::fusion::kalman_output;
use crate::estimation::dual_kalman::{
    bounded_drift, bounded_kappa, jac_eps, joseph, log_density, predicted_cov, predicted_mean,
    sensitivity, DualKalmanFilter,
};
use crate::estimation::posterior::{erf_of, erf_polynomial, StatePosterior};
use crate::num::constants::{pi, sqrt2};
use crate::num::drift::{lemma_add_mag, lemma_mul_commutes, lemma_mul_shrinks, size, PARTS};
use crate::num::elementary::{exp_of, ln_of, Oracle};
use crate::num::linear::{Mat2, Vec2, Vec3};
use crate::num::magnitude::lemma_units_zero;
use crate::num::ops::{lemma_order_key, lemma_round_exact};
use crate::num::order::{
    lemma_add_commutes, lemma_add_grows, lemma_add_monotone, lemma_div_monotone, lemma_ratio_order,
    lemma_round_monotone, lemma_units_order, lemma_whole, lemma_whole_order,
};
use crate::num::rules::{
    is_product, is_sum, lemma_between, lemma_difference_sign, lemma_finite_factors,
    lemma_finite_terms, lemma_half, lemma_halved_order, lemma_not_nan_product, lemma_not_nan_sum,
    lemma_operations_are_close, lemma_over_one, lemma_plus_zero, lemma_small_ratio, lemma_times_one,
    lemma_times_zero, lemma_zero_over, lemma_zero_value,
};
use crate::num::Real;

verus! {

/// The velocity that is predicted is nine tenths of the one before, up to rounding.
pub proof fn velocity_fades(x: Vec2, p: Vec3, mean: Real)
    requires
        x.x.finite(),
        x.y.finite(),
        (Real::ratio(9, 10) * x.y).finite(),
    ensures
        exists|v: Real| #[trigger]
            is_product(v, Real::ratio(9, 10), x.y) && predicted_mean(x, p, mean).y.value()
                == v.value(),
{
    let v = Real::ratio(9, 10) * x.y;
    let zero = Real::whole(0);
    lemma_whole(0);
    assert(0 * pow2(1074) == 0);
    lemma_units_zero(0);
    lemma_zero_value(zero);
    lemma_times_zero(x.x, zero);
    lemma_plus_zero(v, zero * x.x);
    let s = zero * x.x + v;
    lemma_zero_value(v);
    assert(s.finite()) by {
        lemma_add_mag(zero * x.x, v);
        lemma_round_exact(v.mag());
        lemma_zero_value(zero * x.x);
    }
    lemma_plus_zero(s, zero);
    lemma_operations_are_close(Real::ratio(9, 10), x.y);
    assert(is_product(v, Real::ratio(9, 10), x.y));
}

/// A state that is known exactly is predicted with the variance of the noise alone: a tenth
/// of that of the level for the velocity.
pub proof fn known_state_has_only_noise(f: Oracle, cov: Mat2, p: Vec3)
    requires
        cov.r0.x.zero() && cov.r0.y.zero() && cov.r1.x.zero() && cov.r1.y.zero(),
        !p.y.nan(),
        ({
            let s = exp_of(f, crate::estimation::dual_kalman::bounded_log_vol(p.z));
            (s * s).finite() && (s * s * Real::ratio(1, 10)).finite()
        }),
    ensures
        ({
            let s = exp_of(f, crate::estimation::dual_kalman::bounded_log_vol(p.z));
            let r = predicted_cov(f, cov, p);
            &&& r.r0.x.value() == (s * s).value()
            &&& exists|t: Real| #[trigger]
                is_product(t, s * s, Real::ratio(1, 10)) && r.r1.y.value() == t.value()
        }),
{
    let (zero, one) = (Real::whole(0), Real::whole(1));
    let s = exp_of(f, crate::estimation::dual_kalman::bounded_log_vol(p.z));
    let w = pow2(1074) as int;
    lemma_pow2_pos(1074);
    lemma_whole(0);
    lemma_whole(1);
    assert(0 * w == 0 && 1 * w == w);
    lemma_units_zero(0);
    lemma_zero_value(zero);
    let k = bounded_kappa(p.y);
    crate::num::order::lemma_whole_below_ratio(0, 98, 100);
    lemma_ratio_order(98, 100, 1, 1);
    lemma_over_one(one);
    assert(k.finite() && zero <= k && k <= one) by {
        lemma_order_key(zero, Real::ratio(98, 100));
        lemma_order_key(Real::ratio(98, 100), one);
        lemma_between(zero, Real::ratio(98, 100), one);
        lemma_order_key(zero, k);
        lemma_order_key(k, Real::ratio(98, 100));
        lemma_order_key(k, one);
        lemma_between(zero, k, one);
    }
    lemma_whole_order(0, 1);
    crate::num::rules::lemma_subtracts(one, k);
    let a = one - k;
    lemma_ratio_order(9, 10, 1, 1);
    crate::num::order::lemma_whole_below_ratio(0, 9, 10);
    lemma_between(zero, Real::ratio(9, 10), one);
    let b = Real::ratio(9, 10);
    // The rows of the transition times a zero matrix.
    lemma_zero_dot(a, one, cov.r0.x, cov.r1.x);
    lemma_zero_dot(a, one, cov.r0.y, cov.r1.y);
    lemma_zero_dot(zero, b, cov.r0.x, cov.r1.x);
    lemma_zero_dot(zero, b, cov.r0.y, cov.r1.y);
    let (x, y) = (a * cov.r0.x + one * cov.r1.x, a * cov.r0.y + one * cov.r1.y);
    let (u, v) = (zero * cov.r0.x + b * cov.r1.x, zero * cov.r0.y + b * cov.r1.y);
    lemma_dot_zero(x, y, a, one);
    lemma_dot_zero(u, v, zero, b);
    lemma_plus_zero(s * s, x * a + y * one);
    let t = s * s * Real::ratio(1, 10);
    lemma_plus_zero(t, u * zero + v * b);
    lemma_operations_are_close(s * s, Real::ratio(1, 10));
    assert(is_product(t, s * s, Real::ratio(1, 10)));
}

proof fn lemma_zero_dot(a: Real, b: Real, x: Real, y: Real)
    requires
        a.finite(),
        b.finite(),
        x.zero(),
        y.zero(),
    ensures
        (a * x + b * y).zero(),
{
    lemma_times_zero(a, x);
    lemma_times_zero(b, y);
    lemma_zero_value(a * x);
    lemma_plus_zero(a * x, b * y);
    lemma_zero_value(a * x + b * y);
}

proof fn lemma_dot_zero(x: Real, y: Real, a: Real, b: Real)
    requires
        a.finite(),
        b.finite(),
        x.zero(),
        y.zero(),
    ensures
        (x * a + y * b).zero(),
{
    lemma_times_zero(a, x);
    lemma_times_zero(b, y);
    lemma_zero_value(x * a);
    lemma_plus_zero(x * a, y * b);
    lemma_zero_value(x * a + y * b);
}

/// An update without gain leaves the variances as they are; one that takes the price for
/// the level leaves the level with the variance of the observation.
pub proof fn gain_trades_variances(cov: Mat2, r: Real)
    requires
        cov.r0.x.finite() && cov.r0.y.finite() && cov.r1.x.finite() && cov.r1.y.finite(),
        r.finite(),
        (r * r).finite(),
    ensures
        joseph(Vec2 { x: Real::whole(0), y: Real::whole(0) }, cov, r).r0.x.value()
            == cov.r0.x.value(),
        joseph(Vec2 { x: Real::whole(1), y: Real::whole(0) }, cov, r).r0.x.value() == (r
            * r).value(),
{
    let (zero, one) = (Real::whole(0), Real::whole(1));
    let w = pow2(1074) as int;
    lemma_pow2_pos(1074);
    lemma_whole(0);
    lemma_whole(1);
    assert(0 * w == 0 && 1 * w == w);
    lemma_units_zero(0);
    lemma_zero_value(zero);
    lemma_zero_value(one);
    // No gain.
    assert(one - zero == one) by {
        lemma_zero_value(zero.neg());
        lemma_plus_zero(one, zero.neg());
    }
    let (a, b, c, d) = (cov.r0.x, cov.r0.y, cov.r1.x, cov.r1.y);
    lemma_kept(a, c);
    lemma_kept(b, d);
    let (x, y) = (one * a + zero * c, one * b + zero * d);
    lemma_times_one(x);
    lemma_times_zero(y, zero);
    lemma_plus_zero(x * one, y * zero);
    lemma_zero_value(x);
    let t = x * one + y * zero;
    lemma_times_zero(zero, zero);
    lemma_times_zero(r, zero * zero);
    lemma_times_zero(r, zero * zero * r);
    assert(t.finite()) by {
        lemma_add_mag(x * one, y * zero);
        lemma_zero_value(y * zero);
        lemma_round_exact(x.mag());
    }
    lemma_plus_zero(t, zero * zero * r * r);
    // Full gain.
    let o = one - one;
    lemma_difference_sign(one, one);
    lemma_zero_value(o);
    lemma_dot_zero(o, zero, a, c);
    lemma_dot_zero(o, zero, b, d);
    let (u, v) = (o * a + zero * c, o * b + zero * d);
    lemma_zero_value(u);
    lemma_zero_value(v);
    assert(o.finite());
    lemma_dot_zero(u, v, o, zero);
    lemma_times_one(one);
    lemma_times_one(r);
    lemma_plus_zero(r * r, u * o + v * zero);
    assert(one * one * r * r == r * r);
}

/// One times a number and nothing of another is that number.
proof fn lemma_kept(a: Real, c: Real)
    requires
        a.finite(),
        c.finite(),
    ensures
        (Real::whole(1) * a + Real::whole(0) * c).finite(),
        (Real::whole(1) * a + Real::whole(0) * c).value() == a.value(),
{
    let (zero, one) = (Real::whole(0), Real::whole(1));
    lemma_whole(0);
    assert(0 * pow2(1074) == 0);
    lemma_units_zero(0);
    lemma_zero_value(zero);
    lemma_times_one(a);
    lemma_times_zero(c, zero);
    lemma_zero_value(zero * c);
    lemma_plus_zero(a, zero * c);
    lemma_add_mag(a, zero * c);
    lemma_zero_value(a);
    lemma_round_exact(a.mag());
}

/// The predicted price does not respond to the log volatility, and does not fall with the
/// drift.
pub proof fn price_responds_to_the_drift(x: Vec2, p: Vec3, mean: Real)
    requires
        predicted_mean(x, p, mean).x.finite(),
        p.x.finite(),
        ({
            let e = jac_eps();
            let (hi, lo) = (Vec3 { x: p.x + e, ..p }, Vec3 { x: p.x - e, ..p });
            &&& predicted_mean(x, hi, mean).x.finite()
            &&& predicted_mean(x, lo, mean).x.finite()
            &&& (predicted_mean(x, hi, mean).x - predicted_mean(x, lo, mean).x).finite()
        }),
    ensures
        sensitivity(x, p, mean).z.zero(),
        Real::whole(0) <= sensitivity(x, p, mean).x,
{
    let e = jac_eps();
    let step = Real::whole(2) * e;
    let w = pow2(1074) as int;
    lemma_pow2_pos(1074);
    lemma_whole(0);
    lemma_whole(1);
    lemma_whole(2);
    assert(0 * w == 0 && 1 * w == w);
    lemma_small_ratio(100_000);
    lemma_whole_order(0, 2);
    assert(step.finite() && step.value() > 0) by {
        lemma_mul_commutes(Real::whole(2), e);
        lemma_doubled(e);
    }
    lemma_zero_value(step);
    let q = predicted_mean(x, p, mean).x;
    lemma_difference_sign(q, q);
    lemma_zero_value(q - q);
    lemma_zero_over(q - q, step);
    assert(sensitivity(x, p, mean).z == (q - q) / step);
    let (hi, lo) = (Vec3 { x: p.x + e, ..p }, Vec3 { x: p.x - e, ..p });
    let (a, b) = (predicted_mean(x, hi, mean).x, predicted_mean(x, lo, mean).x);
    assert(b <= a) by {
        lemma_drift_order(p.x, e);
        let (dh, dl) = (bounded_drift(hi.x), bounded_drift(lo.x));
        let k = bounded_kappa(p.y) * mean;
        let t = crate::estimation::dual_kalman::transition_of(p).apply(x).x;
        assert(a == t + (k + dh));
        assert(b == t + (k + dl));
        lemma_finite_terms(t, k + dh);
        lemma_finite_terms(t, k + dl);
        lemma_finite_terms(k, dh);
        lemma_add_commutes(k, dh);
        lemma_add_commutes(k, dl);
        lemma_add_monotone(dl, dh, k);
        lemma_add_commutes(t, k + dh);
        lemma_add_commutes(t, k + dl);
        lemma_add_monotone(k + dl, k + dh, t);
    }
    lemma_difference_sign(a, b);
    lemma_order_key(b, a);
    lemma_zero_value(a - b);
    lemma_order_key(Real::whole(0), a - b);
    lemma_order_key(Real::whole(0), step);
    lemma_div_monotone(a - b, a - b, step);
}

/// A bounded drift rises with the drift.
proof fn lemma_drift_order(d: Real, e: Real)
    requires
        d.finite(),
        e.finite(),
        e.value() > 0,
        Real::whole(0) < e,
    ensures
        bounded_drift(d - e) <= bounded_drift(d + e),
{
    lemma_whole(0);
    assert(0 * pow2(1074) == 0);
    lemma_zero_value(e);
    lemma_difference_sign(d, e);
    assert(!(d + e).nan() && !(e.neg() + d).nan() && !(e + d).nan() && !(d + e.neg()).nan()) by {
        lemma_add_mag(d, e);
        lemma_add_mag(d, e.neg());
        lemma_add_commutes(d, e);
        lemma_add_commutes(d, e.neg());
    }
    lemma_order_key(e.neg(), e);
    lemma_add_monotone(e.neg(), e, d);
    lemma_add_commutes(d, e);
    lemma_add_commutes(d, e.neg());
    lemma_small_ratio(100);
    lemma_zero_value(Real::ratio(1, 100));
    lemma_order_key(d - e, d + e);
    lemma_order_key(Real::ratio(1, 100).neg(), Real::ratio(1, 100));
}

/// Twice a small positive number is a positive number.
proof fn lemma_doubled(e: Real)
    requires
        e.finite(),
        0 < e.value() <= pow2(1074),
    ensures
        (Real::whole(2) * e).finite(),
        (Real::whole(2) * e).value() > 0,
{
    let two = Real::whole(2);
    let w = pow2(1074) as int;
    lemma_pow2_pos(1074);
    lemma_whole(2);
    lemma_mul_shrinks(two, e);
    lemma_operations_are_close(two, e);
    let (p, v) = ((two * e).value(), e.value());
    if p == 0 {
        assert(size(0 * w - (2 * w) * v) == 2 * (w * v)) by (nonlinear_arith)
            requires
                w > 0,
                v > 0,
        ;
        assert(false) by (nonlinear_arith)
            requires
                2 * (w * v) * PARTS <= 2 * (w * v) + w * crate::num::model::BINADE,
                w > 0,
                v > 0,
                PARTS == 0x20_0000_0000_0000,
                crate::num::model::BINADE == 0x10_0000_0000_0000,
        ;
    }
}

/// A parameter within its range moves by its gain times the distance of the price from the
/// prediction, up to rounding.
pub proof fn parameters_are_corrected_by_their_gain(kf: DualKalmanFilter, f: Oracle, z: Real)
    requires
        kf.initialized,
        ({
            let (k, i) = (kf.parameter_gain(f, z), kf.innovation(z));
            let p = kf.x_param;
            let n = Vec3 { x: p.x + k.x * i, y: p.y + k.y * i, z: p.z + k.z * i };
            &&& n.x.finite() && n.y.finite() && n.z.finite()
            &&& Real::ratio(1, 100).neg() <= n.x && n.x <= Real::ratio(1, 100)
            &&& Real::ratio(1, 1000) <= n.y && n.y <= Real::ratio(98, 100)
            &&& Real::whole(12).neg() <= n.z && n.z <= Real::whole(1).neg()
        }),
    ensures
        ({
            let (k, i) = (kf.parameter_gain(f, z), kf.innovation(z));
            let (p, q) = (kf.x_param, kf.updated(f, z).x_param);
            exists|a: Real, b: Real, c: Real|
                #![trigger is_product(a, k.x, i), is_product(b, k.y, i), is_product(c, k.z, i)]
                is_product(a, k.x, i) && is_product(b, k.y, i) && is_product(c, k.z, i) && is_sum(
                    q.x,
                    p.x,
                    a,
                ) && is_sum(q.y, p.y, b) && is_sum(q.z, p.z, c)
        }),
{
    let (k, i) = (kf.parameter_gain(f, z), kf.innovation(z));
    let p = kf.x_param;
    let (a, b, c) = (k.x * i, k.y * i, k.z * i);
    lemma_finite_terms(p.x, a);
    lemma_finite_terms(p.y, b);
    lemma_finite_terms(p.z, c);
    lemma_operations_are_close(k.x, i);
    lemma_operations_are_close(k.y, i);
    lemma_operations_are_close(k.z, i);
    lemma_operations_are_close(p.x, a);
    lemma_operations_are_close(p.y, b);
    lemma_operations_are_close(p.z, c);
    let q = kf.updated(f, z).x_param;
    assert(q.x == p.x + a && q.y == p.y + b && q.z == p.z + c);
    assert(is_product(a, k.x, i) && is_product(b, k.y, i) && is_product(c, k.z, i));
}

/// No price is more likely than the predicted one.
pub proof fn prediction_is_most_likely(f: Oracle, innovation: Real, none: Real, s: Real)
    requires
        none.zero(),
        innovation.finite(),
        (innovation * innovation).finite(),
        Real::whole(0) < s,
        s.finite(),
        !log_density(f, innovation, s).nan(),
        !log_density(f, none, s).nan(),
    ensures
        log_density(f, innovation, s) <= log_density(f, none, s),
{
    lemma_whole(0);
    assert(0 * pow2(1074) == 0);
    lemma_zero_value(s);
    lemma_times_zero(none, none);
    lemma_zero_over(none * none, s);
    lemma_zero_value(none * none / s);
    let v = innovation.value();
    crate::num::rules::lemma_product_near(innovation, innovation);
    assert(v * v >= 0) by (nonlinear_arith);
    let q = innovation * innovation;
    lemma_zero_value(q);
    lemma_order_key(Real::whole(0), q);
    lemma_div_monotone(q, q, s);
    let (x, y) = (q / s, none * none / s);
    lemma_order_key(y, x);
    lemma_order_key(Real::whole(0), x);
    let (a, b) = (ln_of(f, s), ln_of(f, Real::whole(2) * pi()));
    lemma_not_nan_product(Real::ratio(1, 2).neg(), x + a + b);
    lemma_not_nan_product(Real::ratio(1, 2).neg(), y + a + b);
    lemma_not_nan_sum(x + a, b);
    lemma_not_nan_sum(y + a, b);
    lemma_add_monotone(y, x, a);
    lemma_add_monotone(y + a, x + a, b);
    lemma_halved_order(y + a + b, x + a + b);
}

/// The posterior is that of the filter's state and parameters.
pub proof fn posterior_reports_the_filter(kf: DualKalmanFilter, f: Oracle)
    requires
        kf.in_range(),
        Real::whole(0) <= kf.p_state.r0.x,
    ensures
        ({
            let p = kf.summary(f);
            &&& p.level == kf.x_state.x
            &&& p.velocity == kf.x_state.y
            &&& p.log_predictive == kf.log_predictive
            &&& p.level_variance == kf.p_state.r0.x
        }),
{
    lemma_whole(0);
    assert(0 * pow2(1074) == 0);
    lemma_order_key(Real::whole(0), kf.p_state.r0.x);
}

/// A sum of numbers of bounded size is finite and bounded.
proof fn lemma_bounded_sum(a: Real, b: Real, k: i64, m: i64)
    requires
        a.finite(),
        b.finite(),
        0 <= k <= 100,
        0 <= m <= 100,
        size(a.value()) <= k * pow2(1074),
        size(b.value()) <= m * pow2(1074),
    ensures
        (a + b).finite(),
        size((a + b).value()) <= (k + m) * pow2(1074),
{
    let w = pow2(1074) as int;
    lemma_pow2_pos(1074);
    let n = (k + m) as i64;
    let top = Real::whole(n);
    lemma_whole(n);
    lemma_add_mag(a, b);
    let (i, j) = (k as int, m as int);
    assert(i * w + j * w == (i + j) * w) by (nonlinear_arith);
    let t = size(a.value() + b.value());
    lemma_units_zero(top.mag());
    lemma_zero_value(top);
    assert((i + j) * w >= 0) by (nonlinear_arith)
        requires
            i >= 0,
            j >= 0,
            w > 0,
    ;
    lemma_round_monotone(t as nat, 1, ((i + j) * w) as nat, 1);
    lemma_round_exact(top.mag());
    lemma_units_order((a + b).mag(), top.mag());
}

/// The polynomial of a number between zero and one is finite.
proof fn lemma_polynomial(t: Real)
    requires
        t.finite(),
        0 <= t.value() <= pow2(1074),
    ensures
        erf_polynomial(t).finite(),
{
    let one = Real::whole(1);
    let w = pow2(1074) as int;
    lemma_pow2_pos(1074);
    lemma_whole(0);
    lemma_whole(1);
    lemma_whole(2);
    assert(0 * w == 0 && 1 * w == w);
    let c1 = Real::ratio(254_829_592, 1_000_000_000);
    let c2 = Real::ratio(284_496_736, 1_000_000_000);
    let c3 = Real::ratio(1_421_413_741, 1_000_000_000);
    let c4 = Real::ratio(1_453_152_027, 1_000_000_000);
    let c5 = Real::ratio(1_061_405_429, 1_000_000_000);
    lemma_coefficient(254_829_592);
    lemma_coefficient(284_496_736);
    lemma_coefficient(1_421_413_741);
    lemma_coefficient(1_453_152_027);
    lemma_coefficient(1_061_405_429);
    lemma_zero_value(c2);
    lemma_zero_value(c4);
    let a5 = t * c5;
    lemma_mul_commutes(t, c5);
    lemma_mul_shrinks(c5, t);
    let b4 = c4.neg() + a5;
    lemma_bounded_sum(c4.neg(), a5, 2, 2);
    let a4 = t * b4;
    lemma_mul_commutes(t, b4);
    lemma_mul_shrinks(b4, t);
    let b3 = c3 + a4;
    lemma_bounded_sum(c3, a4, 2, 4);
    let a3 = t * b3;
    lemma_mul_commutes(t, b3);
    lemma_mul_shrinks(b3, t);
    let b2 = c2.neg() + a3;
    lemma_bounded_sum(c2.neg(), a3, 2, 6);
    let a2 = t * b2;
    lemma_mul_commutes(t, b2);
    lemma_mul_shrinks(b2, t);
    let b1 = c1 + a2;
    lemma_bounded_sum(c1, a2, 2, 8);
    lemma_mul_commutes(t, b1);
    lemma_mul_shrinks(b1, t);
}

/// A coefficient is between zero and two.
proof fn lemma_coefficient(n: i64)
    requires
        0 <= n <= 2_000_000_000,
    ensures
        Real::ratio(n, 1_000_000_000).finite(),
        0 <= Real::ratio(n, 1_000_000_000).value() <= 2 * pow2(1074),
{
    lemma_whole(0);
    lemma_whole(2);
    assert(0 * pow2(1074) == 0);
    lemma_ratio_order(n, 1_000_000_000, 2, 1);
    crate::num::order::lemma_whole_below_ratio(0, n, 1_000_000_000);
    lemma_over_one(Real::whole(2));
    lemma_between(Real::whole(0), Real::ratio(n, 1_000_000_000), Real::whole(2));
}

/// Where the exponential has vanished, the error function is one on the right and minus one
/// on the left.
proof fn lemma_far(f: Oracle, x: Real)
    requires
        x.finite(),
        x.value() != 0,
        exp_of(f, x.neg() * x).zero(),
        (Real::ratio(3_275_911, 10_000_000) * x.abs()).finite(),
    ensures
        x.value() > 0 ==> erf_of(f, x) == Real::whole(1),
        x.value() < 0 ==> erf_of(f, x) == Real::whole(1).neg(),
{
    let one = Real::whole(1);
    let w = pow2(1074) as int;
    lemma_pow2_pos(1074);
    lemma_whole(0);
    lemma_whole(1);
    assert(0 * w == 0 && 1 * w == w);
    lemma_whole_order(0, 1);
    lemma_zero_value(x);
    let c = Real::ratio(3_275_911, 10_000_000);
    crate::num::order::lemma_whole_below_ratio(0, 3_275_911, 10_000_000);
    let u = c * x.abs();
    lemma_finite_factors(c, x.abs());
    lemma_order_key(Real::whole(0), x.abs());
    crate::num::order::lemma_mul_monotone(x.abs(), x.abs(), c);
    crate::num::order::lemma_add_not_negative(one, u);
    lemma_add_grows(one, u);
    let d = one + u;
    let t = one / d;
    lemma_order_key(one, d);
    assert(t.finite() && 0 <= t.value() <= w) by {
        if d.finite() {
            crate::num::drift::lemma_at_most_one(one, d);
            lemma_div_monotone(one, one, d);
            lemma_between(Real::whole(0), t, one);
            lemma_order_key(Real::whole(0), t);
            lemma_order_key(t, one);
        } else {
            reveal(Real::spec_div);
            lemma_units_zero(0);
        }
    }
    lemma_polynomial(t);
    let e = exp_of(f, x.neg() * x);
    lemma_times_zero(erf_polynomial(t), e);
    let q = erf_polynomial(t) * e;
    lemma_zero_value(q);
    lemma_zero_value(q.neg());
    lemma_plus_zero(one, q.neg());
    assert(one - q == one);
}

/// Where the density has vanished at the expected return, measured in deviations, its
/// direction is certain: up where it is positive, and down where it is negative. The
/// signal says the same.
pub proof fn far_return_is_certain(p: StatePosterior, f: Oracle)
    requires
        p.expected_return().finite(),
        p.predictive_std().finite(),
        ({
            let x = p.expected_return() / p.predictive_std() / sqrt2();
            let y = p.expected_return().neg() / p.predictive_std() / sqrt2();
            &&& x.finite() && x.value() != 0
            &&& y.finite() && y.value() != 0
            &&& x.value() > 0 <==> p.expected_return().value() > 0
            &&& y.value() > 0 <==> p.expected_return().value() < 0
            &&& exp_of(f, x.neg() * x).zero() && exp_of(f, y.neg() * y).zero()
            &&& (Real::ratio(3_275_911, 10_000_000) * x.abs()).finite()
            &&& (Real::ratio(3_275_911, 10_000_000) * y.abs()).finite()
        }),
    ensures
        p.expected_return().value() > 0 ==> p.chance_up(f) == Real::whole(1) && p.chance_down(
            f,
        ).zero(),
        p.expected_return().value() < 0 ==> p.chance_down(f) == Real::whole(1) && p.chance_up(
            f,
        ).zero(),
        kalman_output(f, p).p_up == unit(p.chance_up(f)),
        kalman_output(f, p).p_down == unit(p.chance_down(f)),
        kalman_output(f, p).predictive_mean == p.predictive_mean(),
        kalman_output(f, p).predictive_std == p.predictive_std(),
        kalman_output(f, p).log_evidence == p.log_predictive,
{
    let x = p.expected_return() / p.predictive_std() / sqrt2();
    let y = p.expected_return().neg() / p.predictive_std() / sqrt2();
    lemma_far(f, x);
    lemma_far(f, y);
    lemma_ends();
}

/// Half of one and one is one, and half of one less one is nothing.
proof fn lemma_ends()
    ensures
        Real::ratio(1, 2) * (Real::whole(1) + Real::whole(1)) == Real::whole(1),
        (Real::ratio(1, 2) * (Real::whole(1) + Real::whole(1).neg())).zero(),
{
    let (half, one, two) = (Real::ratio(1, 2), Real::whole(1), Real::whole(2));
    let w = pow2(1074) as int;
    lemma_pow2_pos(1074);
    lemma_whole(1);
    lemma_whole(2);
    assert(1 * w == w);
    lemma_half();
    lemma_difference_sign(one, one);
    lemma_zero_value(one - one);
    lemma_times_zero(half, one - one);
    lemma_units_zero(one.mag());
    lemma_units_zero(two.mag());
    assert(one + one == two) by {
        reveal(Real::spec_add);
        lemma_round_exact(two.mag());
    }
    assert(half * two == one) by {
        reveal(Real::spec_mul);
        lemma_units_zero(half.mag());
        lemma_round_exact(one.mag());
        let h = pow2(1073) as int;
        assert(h * (2 * w) == w * w) by (nonlinear_arith)
            requires
                2 * h == w,
        ;
        let n = (h * (2 * w)) as nat;
        lemma_round_monotone(n, w as nat, w as nat, 1);
        lemma_round_monotone(w as nat, 1, n, w as nat);
    }
}

/// The next return is expected to be velocity and drift, the next price level, velocity and
/// drift, and the square of the deviation is the variances of level and noise, up to
/// rounding.
pub proof fn prediction_adds_up(p: StatePosterior)
    requires
        p.predictive_mean().finite(),
        p.expected_return().finite(),
        (p.level_variance + p.sigma * p.sigma).finite(),
        Real::whole(0) <= p.level_variance + p.sigma * p.sigma,
        Real::ratio(1, 10_000_000_000) <= (p.level_variance + p.sigma * p.sigma).sqrt(),
    ensures
        is_sum(p.expected_return(), p.velocity, p.drift),
        exists|t: Real| #[trigger]
            is_sum(t, p.level, p.velocity) && is_sum(p.predictive_mean(), t, p.drift),
        exists|q: Real, v: Real|
            #![trigger is_product(q, p.sigma, p.sigma), is_sum(v, p.level_variance, q)]
            is_product(q, p.sigma, p.sigma) && is_sum(v, p.level_variance, q) && size(
                p.predictive_std().value() * p.predictive_std().value() - v.value() * pow2(1074),
            ) * PARTS <= 3 * (p.predictive_std().value() * p.predictive_std().value()),
{
    let q = p.sigma * p.sigma;
    let v = p.level_variance + q;
    let t = p.level + p.velocity;
    lemma_finite_terms(t, p.drift);
    lemma_finite_terms(p.level_variance, q);
    lemma_operations_are_close(p.velocity, p.drift);
    lemma_operations_are_close(p.level, p.velocity);
    lemma_operations_are_close(t, p.drift);
    lemma_operations_are_close(p.sigma, p.sigma);
    lemma_operations_are_close(p.level_variance, q);
    crate::num::rules::lemma_root_near(v);
    lemma_order_key(Real::ratio(1, 10_000_000_000), v.sqrt());
    assert(p.predictive_std() == v.sqrt());
    assert(is_product(q, p.sigma, p.sigma) && is_sum(v, p.level_variance, q));
}

} // verus!
