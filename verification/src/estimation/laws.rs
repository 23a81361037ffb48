//! What the dual filter does with a price.
use vstd::arithmetic::power2::*;
use vstd::prelude::*;

use crate::estimation::dual_kalman::{
    bounded_drift, bounded_kappa, predicted_cov, predicted_mean, DualKalmanFilter,
};
use crate::num::drift::{
    lemma_add_close, lemma_cancels, lemma_mul_commutes, lemma_mul_shrinks, size, PARTS,
};
use crate::num::elementary::Oracle;
use crate::num::model::BINADE;
use crate::num::order::{lemma_whole, lemma_whole_below_ratio, lemma_whole_order};
use crate::num::rules::{
    lemma_difference_sign, lemma_finite_factors, lemma_finite_terms, lemma_plus_zero,
    lemma_product_near, lemma_quotient_near, lemma_subtracts, lemma_times_one, lemma_times_zero,
    lemma_zero_value,
};
use crate::num::Real;

verus! {

/// The price that the filter predicts before it sees `z`.
pub open spec fn prediction(kf: DualKalmanFilter, z: Real) -> Real {
    predicted_mean(kf.x_state, kf.x_param, kf.mean_with(z)).x
}

/// The steps of a correction: the gain `k`, the product `d`, and the sum `y`.
proof fn lemma_correction_steps(
    w: int,
    x: int,
    c: int,
    s: int,
    z: int,
    p: int,
    v: int,
    k: int,
    d: int,
    y: int,
)
    requires
        w >= PARTS,
        s > 0,
        size(v - (z - p)) * PARTS <= size(z - p),
        size(k * s - c * w) * PARTS <= size(c) * w + s * BINADE,
        size(d * w - k * v) * PARTS <= size(k * v) + w * BINADE,
        size(y - (x + d)) * PARTS <= size(x + d),
    ensures
        size((y - x) * s - (z - p) * c) * PARTS <= 15 * (size(c) * size(z - p)) + s * (8 * size(z - p)
            + 2 * BINADE + size(x)),
{
    let (e4, e2, e1, e3) = (v - (z - p), k * s - c * w, d * w - k * v, y - (x + d));
    let dd = size(z - p);
    let q = (y - x) * s - (z - p) * c;
    assert(((y - x) * s) * w == (d * w) * s + e3 * w * s) by (nonlinear_arith)
        requires
            y - x == d + e3,
    ;
    assert((d * w) * s == v * (k * s) + s * e1) by (nonlinear_arith)
        requires
            d * w == k * v + e1,
    ;
    assert(v * (k * s) == v * c * w + v * e2) by (nonlinear_arith)
        requires
            k * s == c * w + e2,
    ;
    assert(v * c * w == ((z - p) * c) * w + e4 * c * w) by (nonlinear_arith)
        requires
            v == (z - p) + e4,
    ;
    assert(q * w == ((y - x) * s) * w - ((z - p) * c) * w) by (nonlinear_arith)
        requires
            q == (y - x) * s - (z - p) * c,
    ;
    assert(q * w == e4 * c * w + v * e2 + s * e1 + e3 * w * s);
    assert(size(v) <= 2 * dd) by (nonlinear_arith)
        requires
            e4 == v - (z - p),
            size(e4) * PARTS <= dd,
            dd == size(z - p),
    ;
    let (cc, vv) = (size(c), size(v));
    let cd = cc * dd;
    let sd = s * dd;
    let (a1, a2, a3, a4) = (e4 * c * w, v * e2, s * e1, e3 * w * s);
    assert(cd >= 0 && sd >= 0) by (nonlinear_arith)
        requires
            cd == cc * dd,
            sd == s * dd,
            cc >= 0,
            dd >= 0,
            s > 0,
    ;
    assert(size(a1) * PARTS <= cd * w) by (nonlinear_arith)
        requires
            a1 == e4 * c * w,
            size(e4) * PARTS <= dd,
            cd == size(c) * dd,
            w > 0,
    ;
    assert(vv * cc <= 2 * cd) by (nonlinear_arith)
        requires
            vv <= 2 * dd,
            cd == cc * dd,
            cc >= 0,
    ;
    assert(vv * s <= 2 * sd) by (nonlinear_arith)
        requires
            vv <= 2 * dd,
            sd == s * dd,
            s > 0,
    ;
    assert(size(a2) * PARTS <= (vv * cc) * w + (vv * s) * BINADE) by (nonlinear_arith)
        requires
            a2 == v * e2,
            vv == size(v),
            size(e2) * PARTS <= cc * w + s * BINADE,
    ;
    assert((vv * cc) * w <= 2 * (cd * w)) by (nonlinear_arith)
        requires
            vv * cc <= 2 * cd,
            w > 0,
    ;
    assert((vv * s) * BINADE <= sd * w) by (nonlinear_arith)
        requires
            vv * s <= 2 * sd,
            2 * BINADE <= w,
            sd >= 0,
            vv >= 0,
            s > 0,
    ;
    let kv = size(k * v);
    // The gain times the innovation, scaled.
    assert(size(e2) <= size(e2) * PARTS) by (nonlinear_arith);
    assert(k * s == c * w + e2);
    assert(size(c * w) == cc * w) by (nonlinear_arith)
        requires
            cc == size(c),
            w > 0,
    ;
    assert(size(k * s) <= 2 * (cc * w) + s * BINADE);
    assert(kv * s == size(k * s) * vv) by (nonlinear_arith)
        requires
            kv == size(k * v),
            vv == size(v),
            s > 0,
    ;
    assert(size(k * s) * vv <= 2 * ((vv * cc) * w) + (vv * s) * BINADE) by (nonlinear_arith)
        requires
            size(k * s) <= 2 * (cc * w) + s * BINADE,
            vv >= 0,
    ;
    assert(kv * s <= 4 * (cd * w) + sd * w);
    assert(size(a3) * PARTS <= kv * s + s * w * BINADE) by (nonlinear_arith)
        requires
            a3 == s * e1,
            size(e1) * PARTS <= kv + w * BINADE,
            s > 0,
    ;
    let dw = size(d) * w;
    assert(dw == size(d * w)) by (nonlinear_arith)
        requires
            dw == size(d) * w,
            w > 0,
    ;
    assert(size(e1) <= size(e1) * PARTS) by (nonlinear_arith);
    assert(dw <= 2 * kv + w * BINADE);
    assert(dw * s <= 2 * (kv * s) + s * w * BINADE) by (nonlinear_arith)
        requires
            dw <= 2 * kv + w * BINADE,
            s > 0,
    ;
    assert(size(a4) * PARTS <= size(x) * w * s + dw * s) by (nonlinear_arith)
        requires
            a4 == e3 * w * s,
            size(e3) * PARTS <= size(x) + size(d),
            dw == size(d) * w,
            w > 0,
            s > 0,
    ;
    let qw = q * w;
    assert(size(qw) * PARTS <= size(a1) * PARTS + size(a2) * PARTS + size(a3) * PARTS + size(a4)
        * PARTS) by (nonlinear_arith)
        requires
            size(qw) <= size(a1) + size(a2) + size(a3) + size(a4),
    ;
    assert(size(qw) * PARTS <= 15 * (cd * w) + 4 * (sd * w) + 2 * (s * w * BINADE) + size(x) * w * s);
    assert(size(q) * PARTS <= 15 * cd + 8 * sd + 2 * (s * BINADE) + size(x) * s) by (nonlinear_arith)
        requires
            size(qw) * PARTS <= 15 * (cd * w) + 4 * (sd * w) + 2 * (s * w * BINADE) + size(x) * w * s,
            qw == q * w,
            w > 0,
            sd >= 0,
    ;
    assert(s * (8 * dd + 2 * BINADE + size(x)) == 8 * sd + 2 * (s * BINADE) + size(x) * s)
        by (nonlinear_arith)
        requires
            sd == s * dd,
    ;
}

/// A number corrected by the share `c / s` of the distance between a price and its
/// prediction.
proof fn lemma_corrected(x: Real, c: Real, s: Real, z: Real, p: Real)
    requires
        (x + c / s * (z - p)).finite(),
        c.finite(),
        s.finite(),
        s.value() > 0,
    ensures
        ({
            let y = (x + c / s * (z - p)).value();
            let gap = z.value() - p.value();
            size((y - x.value()) * s.value() - gap * c.value()) * PARTS <= 15 * (size(c.value())
                * size(gap)) + s.value() * (8 * size(gap) + 2 * BINADE + size(x.value()))
        }),
        x.finite(),
        z.finite(),
        p.finite(),
{
    let (k, v) = (c / s, z - p);
    let d = k * v;
    lemma_finite_terms(x, d);
    lemma_finite_factors(k, v);
    lemma_finite_terms(z, p.neg());
    lemma_zero_value(p);
    lemma_add_close(x, d);
    lemma_add_close(z, p.neg());
    lemma_quotient_near(c, s);
    lemma_product_near(k, v);
    lemma_pow2_pos(1074);
    lemma2_to64();
    lemma2_to64_rest();
    lemma_pow2_strictly_increases(53, 1074);
    lemma_correction_steps(
        pow2(1074) as int,
        x.value(),
        c.value(),
        s.value(),
        z.value(),
        p.value(),
        v.value(),
        k.value(),
        d.value(),
        (x + d).value(),
    );
}

/// Level and velocity are corrected in proportion to the distance between the price
/// and its prediction: the level by the share that its predicted variance has in the
/// predicted variance and that of the observation, the velocity by the share that
/// their covariance has. Up to rounding.
pub proof fn state_is_corrected_in_proportion(kf: DualKalmanFilter, f: Oracle, z: Real)
    requires
        kf.initialized,
        kf.updated(f, z).x_state.x.finite(),
        kf.updated(f, z).x_state.y.finite(),
        predicted_cov(f, kf.p_state, kf.x_param).r0.x.finite(),
        predicted_cov(f, kf.p_state, kf.x_param).r1.x.finite(),
        (predicted_cov(f, kf.p_state, kf.x_param).r0.x + kf.sigma_obs * kf.sigma_obs).finite(),
        Real::whole(0) < predicted_cov(f, kf.p_state, kf.x_param).r0.x + kf.sigma_obs
            * kf.sigma_obs,
    ensures
        ({
            let cov = predicted_cov(f, kf.p_state, kf.x_param);
            let before = predicted_mean(kf.x_state, kf.x_param, kf.mean_with(z));
            let after = kf.updated(f, z).x_state;
            let s = (cov.r0.x + kf.sigma_obs * kf.sigma_obs).value();
            let gap = z.value() - prediction(kf, z).value();
            &&& size((after.x.value() - before.x.value()) * s - gap * cov.r0.x.value()) * PARTS
                <= 15 * (size(cov.r0.x.value()) * size(gap)) + s * (8 * size(gap) + 2 * BINADE
                + size(before.x.value()))
            &&& size((after.y.value() - before.y.value()) * s - gap * cov.r1.x.value()) * PARTS
                <= 15 * (size(cov.r1.x.value()) * size(gap)) + s * (8 * size(gap) + 2 * BINADE
                + size(before.y.value()))
        }),
{
    let cov = predicted_cov(f, kf.p_state, kf.x_param);
    let before = predicted_mean(kf.x_state, kf.x_param, kf.mean_with(z));
    let s = cov.r0.x + kf.sigma_obs * kf.sigma_obs;
    lemma_whole(0);
    assert(0 * pow2(1074) == 0);
    lemma_corrected(before.x, cov.r0.x, s, z, before.x);
    lemma_corrected(before.y, cov.r1.x, s, z, before.x);
}

/// An observation without noise is believed: the level becomes the price, up to
/// rounding, however far it is from the prediction.
pub proof fn noise_free_price_becomes_the_level(kf: DualKalmanFilter, f: Oracle, z: Real)
    requires
        kf.initialized,
        kf.sigma_obs.zero(),
        kf.updated(f, z).x_state.x.finite(),
        predicted_cov(f, kf.p_state, kf.x_param).r0.x.finite(),
        Real::whole(0) < predicted_cov(f, kf.p_state, kf.x_param).r0.x,
    ensures
        ({
            let p = prediction(kf, z).value();
            size(kf.updated(f, z).x_state.x.value() - z.value()) * PARTS <= 23 * size(z.value() - p)
                + 2 * BINADE + size(p)
        }),
{
    let c = predicted_cov(f, kf.p_state, kf.x_param).r0.x;
    let r = kf.sigma_obs * kf.sigma_obs;
    lemma_whole(0);
    assert(0 * pow2(1074) == 0);
    lemma_times_zero(kf.sigma_obs, kf.sigma_obs);
    lemma_plus_zero(c, r);
    let s = c + r;
    let p = prediction(kf, z);
    lemma_corrected(p, c, s, z, p);
    let (y, cv, gap) = (kf.updated(f, z).x_state.x.value(), c.value(), z.value() - p.value());
    let d = y - z.value();
    assert((y - p.value()) * cv - gap * cv == d * cv) by (nonlinear_arith)
        requires
            d == y - z.value(),
            gap == z.value() - p.value(),
    ;
    let g = size(gap);
    assert(size(d) * PARTS <= 23 * g + 2 * BINADE + size(p.value())) by (nonlinear_arith)
        requires
            size(d * cv) * PARTS <= 15 * (cv * g) + cv * (8 * g + 2 * BINADE + size(p.value())),
            cv > 0,
    ;
}

/// A price that is just as predicted corrects nothing: the state is the prediction, and
/// parameters in range stay as they are.
pub proof fn predicted_price_corrects_nothing(kf: DualKalmanFilter, f: Oracle, z: Real)
    requires
        kf.initialized,
        kf.in_range(),
        z == prediction(kf, z),
        z.finite(),
        kf.parameter_gain(f, z).x.finite(),
        kf.parameter_gain(f, z).y.finite(),
        kf.parameter_gain(f, z).z.finite(),
        (predicted_cov(f, kf.p_state, kf.x_param).r0.x / kf.innovation_variance(f)).finite(),
        (predicted_cov(f, kf.p_state, kf.x_param).r1.x / kf.innovation_variance(f)).finite(),
        !predicted_mean(kf.x_state, kf.x_param, kf.mean_with(z)).y.nan(),
    ensures
        ({
            let before = predicted_mean(kf.x_state, kf.x_param, kf.mean_with(z));
            let after = kf.updated(f, z);
            &&& after.x_state.x.value() == z.value()
            &&& after.x_state.y.value() == before.y.value()
            &&& after.x_param.x.value() == kf.x_param.x.value()
            &&& after.x_param.y.value() == kf.x_param.y.value()
            &&& after.x_param.z.value() == kf.x_param.z.value()
        }),
{
    let before = predicted_mean(kf.x_state, kf.x_param, kf.mean_with(z));
    let v = kf.innovation(z);
    lemma_cancels(z);
    lemma_whole(0);
    assert(0 * pow2(1074) == 0);
    lemma_zero_value(v);
    let cov = predicted_cov(f, kf.p_state, kf.x_param);
    let s = kf.innovation_variance(f);
    lemma_times_zero(cov.r0.x / s, v);
    lemma_times_zero(cov.r1.x / s, v);
    lemma_plus_zero(before.x, cov.r0.x / s * v);
    lemma_plus_zero(before.y, cov.r1.x / s * v);
    let k = kf.parameter_gain(f, z);
    lemma_times_zero(k.x, v);
    lemma_times_zero(k.y, v);
    lemma_times_zero(k.z, v);
    lemma_plus_zero(kf.x_param.x, k.x * v);
    lemma_plus_zero(kf.x_param.y, k.y * v);
    lemma_plus_zero(kf.x_param.z, k.z * v);
}

/// The prediction reverts to the long-run mean, follows the velocity and drifts: it is
/// `(1 - kappa) * level + kappa * mean + velocity + drift`, up to rounding.
pub proof fn prediction_reverts_and_drifts(kf: DualKalmanFilter, z: Real)
    requires
        kf.in_range(),
        prediction(kf, z).finite(),
    ensures
        ({
            let (l, v, k, d) = (
                kf.x_state.x.value(),
                kf.x_state.y.value(),
                kf.x_param.y.value(),
                kf.x_param.x.value(),
            );
            let (m, w) = (kf.mean_with(z).value(), pow2(1074) as int);
            size(prediction(kf, z).value() * w - ((w - k) * l + k * m + w * v + w * d)) * PARTS <= 6
                * w * (size(l) + size(v) + size(m) + size(d) + BINADE)
        }),
{
    let (one, w) = (Real::whole(1), pow2(1074) as int);
    lemma_whole(0);
    lemma_whole(1);
    lemma_pow2_pos(1074);
    assert(0 * w == 0 && 1 * w == w);
    crate::estimation::dual_kalman::lemma_bounds();
    let (kp, dr) = (kf.x_param.y, kf.x_param.x);
    assert(bounded_kappa(kp) == kp && bounded_drift(dr) == dr) by {
        lemma_whole_below_ratio(0, 1, 1000);
    }
    let mean = kf.mean_with(z);
    let (lv, vel) = (kf.x_state.x, kf.x_state.y);
    let a = one - kp;
    let (b, c) = (a * lv, one * vel);
    let d = b + c;
    let e = kp * mean;
    let g = e + dr;
    let p = prediction(kf, z);
    assert(p == d + g);
    lemma_finite_terms(d, g);
    lemma_finite_terms(b, c);
    lemma_finite_terms(e, dr);
    lemma_finite_factors(a, lv);
    lemma_finite_factors(one, vel);
    lemma_finite_factors(kp, mean);
    lemma_times_one(vel);
    crate::num::order::lemma_whole_order(0, 1);
    assert(kp <= one) by {
        crate::estimation::dual_kalman::lemma_ratio_below_one(98, 100);
    }
    assert(Real::whole(0) <= kp) by {
        lemma_whole_below_ratio(0, 1, 1000);
    }
    lemma_subtracts(one, kp);
    lemma_difference_sign(one, kp);
    assert(a <= one);
    lemma_zero_value(kp);
    lemma_add_close(one, kp.neg());
    lemma_mul_commutes(a, lv);
    lemma_mul_shrinks(lv, a);
    lemma_mul_commutes(kp, mean);
    lemma_mul_shrinks(mean, kp);
    lemma_add_close(b, c);
    lemma_add_close(e, dr);
    lemma_add_close(d, g);
    let (pv, dv, gv, bv, ev, av) = (
        p.value(),
        d.value(),
        g.value(),
        b.value(),
        e.value(),
        a.value(),
    );
    let (l, v, k, m, r) = (lv.value(), vel.value(), kp.value(), mean.value(), dr.value());
    let (t1, t2, t3, t4, t5, t6) = (
        pv - (dv + gv),
        dv - (bv + v),
        bv * w - l * av,
        av - (w - k),
        gv - (ev + r),
        ev * w - m * k,
    );
    let q = pv * w - ((w - k) * l + k * m + w * v + w * r);
    let (q1, q2, q4, q5) = (t1 * w, t2 * w, l * t4, t5 * w);
    assert(q == q1 + q2 + t3 + q4 + q5 + t6) by (nonlinear_arith)
        requires
            q == pv * w - ((w - k) * l + k * m + w * v + w * r),
            t1 == pv - (dv + gv),
            t2 == dv - (bv + v),
            t3 == bv * w - l * av,
            t4 == av - (w - k),
            t5 == gv - (ev + r),
            t6 == ev * w - m * k,
            q1 == t1 * w,
            q2 == t2 * w,
            q4 == l * t4,
            q5 == t5 * w,
    ;
    let (sl, sv, sm, sr) = (size(l), size(v), size(m), size(r));
    assert(size(dv) <= 2 * (sl + sv)) by {
        assert(size(t2) <= size(t2) * PARTS) by (nonlinear_arith);
    }
    assert(size(gv) <= 2 * (sm + sr)) by {
        assert(size(t5) <= size(t5) * PARTS) by (nonlinear_arith);
    }
    assert(size(q1) * PARTS <= 2 * (sl * w) + 2 * (sv * w) + 2 * (sm * w) + 2 * (sr * w))
        by (nonlinear_arith)
        requires
            q1 == t1 * w,
            size(t1) * PARTS <= 2 * (sl + sv) + 2 * (sm + sr),
            w > 0,
    ;
    assert(size(q2) * PARTS <= sl * w + sv * w) by (nonlinear_arith)
        requires
            q2 == t2 * w,
            size(t2) * PARTS <= sl + sv,
            w > 0,
    ;
    assert(size(q5) * PARTS <= sm * w + sr * w) by (nonlinear_arith)
        requires
            q5 == t5 * w,
            size(t5) * PARTS <= sm + sr,
            w > 0,
    ;
    assert(size(q4) * PARTS <= sl * w) by (nonlinear_arith)
        requires
            q4 == l * t4,
            sl == size(l),
            size(t4) * PARTS <= w,
    ;
    assert(size(l * av) <= sl * w) by (nonlinear_arith)
        requires
            sl == size(l),
            0 <= av <= w,
    ;
    assert(size(m * k) <= sm * w) by (nonlinear_arith)
        requires
            sm == size(m),
            0 <= k <= w,
    ;
    assert(size(q) * PARTS <= size(q1) * PARTS + size(q2) * PARTS + size(t3) * PARTS + size(q4)
        * PARTS + size(q5) * PARTS + size(t6) * PARTS) by (nonlinear_arith)
        requires
            size(q) <= size(q1) + size(q2) + size(t3) + size(q4) + size(q5) + size(t6),
    ;
    assert(6 * w * (sl + sv + sm + sr + BINADE) == 6 * (sl * w) + 6 * (sv * w) + 6 * (sm * w) + 6
        * (sr * w) + 6 * (w * BINADE)) by (nonlinear_arith);
    assert(sl * w >= 0 && sv * w >= 0 && sm * w >= 0 && sr * w >= 0) by (nonlinear_arith)
        requires
            sl >= 0,
            sv >= 0,
            sm >= 0,
            sr >= 0,
            w > 0,
    ;
}

/// The long-run mean moves towards an observed price by its weight: it is
/// `(1 - alpha) * mean + alpha * price`, up to rounding.
pub proof fn long_run_mean_follows_prices(kf: DualKalmanFilter, f: Oracle, z: Real)
    requires
        kf.initialized,
        Real::whole(0) <= kf.mean_alpha,
        kf.mean_alpha <= Real::whole(1),
        kf.updated(f, z).rolling_mean.finite(),
    ensures
        ({
            let (a, m, v, w) = (
                kf.mean_alpha.value(),
                kf.rolling_mean.value(),
                z.value(),
                pow2(1074) as int,
            );
            size(kf.updated(f, z).rolling_mean.value() * w - ((w - a) * m + a * v)) * PARTS <= 4 * w
                * (size(m) + size(v) + BINADE)
        }),
{
    let (one, w) = (Real::whole(1), pow2(1074) as int);
    lemma_whole(0);
    lemma_whole(1);
    lemma_pow2_pos(1074);
    assert(0 * w == 0 && 1 * w == w);
    let (al, mean) = (kf.mean_alpha, kf.rolling_mean);
    let a = one - al;
    let (b, e) = (a * mean, al * z);
    let r = kf.updated(f, z).rolling_mean;
    assert(r == b + e);
    lemma_finite_terms(b, e);
    lemma_finite_factors(a, mean);
    lemma_finite_factors(al, z);
    lemma_subtracts(one, al);
    lemma_difference_sign(one, al);
    lemma_zero_value(al);
    lemma_add_close(one, al.neg());
    lemma_mul_commutes(a, mean);
    lemma_mul_shrinks(mean, a);
    lemma_mul_commutes(al, z);
    lemma_mul_shrinks(z, al);
    lemma_add_close(b, e);
    let (rv, bv, ev, av, k, m, v) = (
        r.value(),
        b.value(),
        e.value(),
        a.value(),
        al.value(),
        mean.value(),
        z.value(),
    );
    let (t1, t3, t4, t6) = (rv - (bv + ev), bv * w - m * av, av - (w - k), ev * w - v * k);
    let q = rv * w - ((w - k) * m + k * v);
    let (q1, q4) = (t1 * w, m * t4);
    assert(q == q1 + t3 + q4 + t6) by (nonlinear_arith)
        requires
            q == rv * w - ((w - k) * m + k * v),
            t1 == rv - (bv + ev),
            t3 == bv * w - m * av,
            t4 == av - (w - k),
            t6 == ev * w - v * k,
            q1 == t1 * w,
            q4 == m * t4,
    ;
    let (sm, sv) = (size(m), size(v));
    assert(size(q1) * PARTS <= sm * w + sv * w) by (nonlinear_arith)
        requires
            q1 == t1 * w,
            size(t1) * PARTS <= sm + sv,
            w > 0,
    ;
    assert(size(q4) * PARTS <= sm * w) by (nonlinear_arith)
        requires
            q4 == m * t4,
            sm == size(m),
            size(t4) * PARTS <= w,
    ;
    assert(size(m * av) <= sm * w) by (nonlinear_arith)
        requires
            sm == size(m),
            0 <= av <= w,
    ;
    assert(size(v * k) <= sv * w) by (nonlinear_arith)
        requires
            sv == size(v),
            0 <= k <= w,
    ;
    assert(size(q) * PARTS <= size(q1) * PARTS + size(t3) * PARTS + size(q4) * PARTS + size(t6)
        * PARTS) by (nonlinear_arith)
        requires
            size(q) <= size(q1) + size(t3) + size(q4) + size(t6),
    ;
    assert(4 * w * (sm + sv + BINADE) == 4 * (sm * w) + 4 * (sv * w) + 4 * (w * BINADE))
        by (nonlinear_arith);
    assert(sm * w >= 0 && sv * w >= 0) by (nonlinear_arith)
        requires
            sm >= 0,
            sv >= 0,
            w > 0,
    ;
}

} // verus!
