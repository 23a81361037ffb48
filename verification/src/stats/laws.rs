//! What the volatility model, the pair tests and the return distributions state.
use vstd::arithmetic::power2::{lemma_pow2_pos, pow2};
use vstd::prelude::*;

use crate::data::laws::ln_is_monotone;
use crate::num::constants::pi;
use crate::num::drift::{size, PARTS};
use crate::num::elementary::{ln_of, Elementary, Oracle};
use crate::num::magnitude::lemma_units_zero;
use crate::num::ops::lemma_order_key;
use crate::num::order::{
    lemma_add_commutes, lemma_add_monotone, lemma_div_antitone, lemma_whole, lemma_whole_order,
};
use crate::num::rules::{
    is_product, is_quotient, is_sum, lemma_difference_sign, lemma_finite_factors,
    lemma_finite_terms, lemma_half, lemma_negated_factor, lemma_negated_term,
    lemma_operations_are_close, lemma_over_itself, lemma_plus_zero, lemma_root_near,
    lemma_small_ratio, lemma_sum_over, lemma_times_one, lemma_times_zero, lemma_zero_over,
    lemma_zero_value, near_ratio,
};
use crate::num::series::{sum_of_seq, tally};
use crate::num::Real;
use crate::stats::cauchy::{cauchy_cdf_of, cauchy_log_pdf_of, CauchyDist};
use crate::stats::cointegration::{
    changes_of, is_process, is_test, line_of, residuals_of, CointegrationResult, OuProcess,
};
use crate::stats::common::{ks_of, middle_of};
use crate::stats::discrete::reach;
use crate::stats::garch::{long_run, variance_after, Garch11};
use crate::stats::student::{
    bisection, incomplete_beta_of, t_cdf_of, t_log_pdf_of, t_quantile_of, t_weights, StudentT,
};

verus! {

/// The number is the constant, the squared return at its share and the earlier variance at
/// its share, added up, each up to rounding.
pub open spec fn is_variance(
    v: Real,
    omega: Real,
    alpha: Real,
    ret: Real,
    beta: Real,
    before: Real,
    parts: (Real, Real, Real, Real),
) -> bool {
    let (at_share, shock, memory, so_far) = parts;
    &&& is_product(at_share, alpha, ret)
    &&& is_product(shock, at_share, ret)
    &&& is_product(memory, beta, before)
    &&& is_sum(so_far, omega, shock)
    &&& is_sum(v, so_far, memory)
}

/// A conditional variance is made of the constant, the latest squared return and the
/// variance before; without returns it is the one in the long run.
pub proof fn variance_adds_shock_and_memory(
    rets: Seq<Real>,
    omega: Real,
    alpha: Real,
    beta: Real,
    n: nat,
)
    requires
        n <= rets.len(),
        variance_after(rets, omega, alpha, beta, n).finite(),
    ensures
        n > 0 ==> exists|parts: (Real, Real, Real, Real)| #[trigger]
            is_variance(
                variance_after(rets, omega, alpha, beta, n),
                omega,
                alpha,
                rets[n - 1],
                beta,
                variance_after(rets, omega, alpha, beta, (n - 1) as nat),
                parts,
            ),
        n == 0 && Real::ratio(1, 1_000_000_000_000) <= long_run(omega, alpha, beta)
            ==> variance_after(rets, omega, alpha, beta, n) == long_run(omega, alpha, beta),
{
    lemma_small_ratio(1_000_000_000_000);
    if n > 0 {
        let before = variance_after(rets, omega, alpha, beta, (n - 1) as nat);
        let r = rets[n - 1];
        let (a, c) = (alpha * r, beta * before);
        let b = a * r;
        let s = omega + b;
        lemma_finite_terms(s, c);
        lemma_finite_terms(omega, b);
        lemma_finite_factors(a, r);
        lemma_operations_are_close(alpha, r);
        lemma_operations_are_close(a, r);
        lemma_operations_are_close(beta, before);
        lemma_operations_are_close(omega, b);
        lemma_operations_are_close(s, c);
        assert(is_variance(
            variance_after(rets, omega, alpha, beta, n),
            omega,
            alpha,
            r,
            beta,
            before,
            (a, b, c, s),
        ));
    } else {
        let x = long_run(omega, alpha, beta);
        if Real::ratio(1, 1_000_000_000_000) <= x {
            lemma_order_key(Real::ratio(1, 1_000_000_000_000), x);
        }
    }
}

/// The variance in the long run times what the shares leave of one is the constant, up to
/// rounding.
pub proof fn long_run_variance_balances(omega: Real, alpha: Real, beta: Real)
    requires
        omega.finite(),
        (Real::whole(1) - alpha - beta).finite(),
        Real::ratio(1, 10_000_000_000) <= Real::whole(1) - alpha - beta,
        long_run(omega, alpha, beta).finite(),
    ensures
        is_quotient(long_run(omega, alpha, beta), omega, Real::whole(1) - alpha - beta),
{
    let rest = Real::whole(1) - alpha - beta;
    lemma_small_ratio(10_000_000_000);
    lemma_order_key(Real::ratio(1, 10_000_000_000), rest);
    lemma_operations_are_close(omega, rest);
}

/// The square of the forecast deviation is made of the constant, the latest squared return
/// and the latest variance, each at its share and up to rounding.
pub proof fn forecast_is_the_root_of_the_next_variance(g: Garch11, rets: Seq<Real>)
    requires
        rets.len() > 0,
        ({
            let n = rets.len();
            let before = variance_after(rets, g.omega, g.alpha, g.beta, (n - 1) as nat);
            let v = g.omega + g.alpha * (rets.last() * rets.last()) + g.beta * before;
            v.finite() && Real::whole(0) <= v
        }),
    ensures
        ({
            let n = rets.len();
            let before = variance_after(rets, g.omega, g.alpha, g.beta, (n - 1) as nat);
            let s = g.sigma_ahead(rets).value();
            exists|v: Real, square: Real, shock: Real, memory: Real, so_far: Real|
                #![trigger is_product(shock, g.alpha, square), is_sum(v, so_far, memory)]
                is_product(square, rets.last(), rets.last()) && is_product(shock, g.alpha, square)
                    && is_product(memory, g.beta, before) && is_sum(so_far, g.omega, shock)
                    && is_sum(v, so_far, memory) && size(s * s - v.value() * pow2(1074)) * PARTS
                    <= 3 * (s * s)
        }),
{
    let n = rets.len();
    let before = variance_after(rets, g.omega, g.alpha, g.beta, (n - 1) as nat);
    let r = rets.last();
    let square = r * r;
    let (shock, memory) = (g.alpha * square, g.beta * before);
    let so_far = g.omega + shock;
    let v = so_far + memory;
    lemma_finite_terms(so_far, memory);
    lemma_finite_terms(g.omega, shock);
    lemma_finite_factors(g.alpha, square);
    lemma_operations_are_close(r, r);
    lemma_operations_are_close(g.alpha, square);
    lemma_operations_are_close(g.beta, before);
    lemma_operations_are_close(g.omega, shock);
    lemma_operations_are_close(so_far, memory);
    lemma_root_near(v);
    let s = g.sigma_ahead(rets).value();
    assert(is_product(shock, g.alpha, square) && is_sum(v, so_far, memory));
}

/// A spread at its mean has no score; the score times the deviation is the distance of the
/// spread from the mean, up to rounding.
pub proof fn score_measures_the_spread(ou: OuProcess, p1: Real, p2: Real)
    requires
        ({
            let spread = p1 - ou.alpha_const - ou.beta * p2;
            let deviation = ou.sigma / (Real::whole(2) * ou.kappa).sqrt();
            &&& spread.finite()
            &&& ou.theta.finite()
            &&& deviation.finite()
            &&& Real::ratio(1, 10_000_000_000) <= deviation
            &&& (spread - ou.theta).finite()
            &&& ou.z_score(p1, p2).finite()
        }),
    ensures
        ({
            let spread = p1 - ou.alpha_const - ou.beta * p2;
            let deviation = ou.sigma / (Real::whole(2) * ou.kappa).sqrt();
            let z = ou.z_score(p1, p2);
            &&& near_ratio(z, spread.value() - ou.theta.value(), deviation.value(), 3)
            &&& spread.value() == ou.theta.value() ==> z.zero()
        }),
{
    let spread = p1 - ou.alpha_const - ou.beta * p2;
    let deviation = ou.sigma / (Real::whole(2) * ou.kappa).sqrt();
    lemma_small_ratio(10_000_000_000);
    lemma_order_key(Real::ratio(1, 10_000_000_000), deviation);
    lemma_sum_over(spread, ou.theta, deviation);
    lemma_difference_sign(spread, ou.theta);
    if spread.value() == ou.theta.value() {
        lemma_zero_value(spread - ou.theta);
        lemma_zero_over(spread - ou.theta, deviation);
    }
}

/// A fitted process belongs to its pair, reverts, and has a half-life that is the logarithm
/// of two over its speed, up to rounding.
pub proof fn process_reverts_by_half(
    r: OuProcess,
    f: Oracle,
    coint: CointegrationResult,
    p1: Seq<Real>,
    p2: Seq<Real>,
)
    requires
        is_process(r, f, coint, p1, p2),
        r.kappa.finite(),
        ln_of(f, Real::whole(2)).finite(),
        r.half_life.finite(),
    ensures
        r.asset1@ == coint.asset1@,
        r.asset2@ == coint.asset2@,
        r.beta == coint.beta,
        r.alpha_const == coint.alpha,
        Real::whole(0) < r.kappa,
        is_quotient(r.half_life, ln_of(f, Real::whole(2)), r.kappa),
{
    lemma_small_ratio(100_000_000);
    lemma_order_key(Real::ratio(1, 100_000_000), r.kappa);
    lemma_whole(0);
    assert(0 * pow2(1074) == 0);
    lemma_operations_are_close(ln_of(f, Real::whole(2)), r.kappa);
}

/// A pair is cointegrated where the statistic of its residuals is below the critical value,
/// and the result names the pair in order.
pub proof fn test_compares_with_the_critical_value(
    r: CointegrationResult,
    asset1: Seq<char>,
    asset2: Seq<char>,
    p1: Seq<Real>,
    p2: Seq<Real>,
)
    requires
        is_test(r, asset1, asset2, p1, p2),
    ensures
        r.asset1@ == asset1 && r.asset2@ == asset2,
        r.is_cointegrated <==> r.adf_stat < Real::ratio(286, 100).neg(),
        r.alpha == line_of(p1, p2).0 && r.beta == line_of(p1, p2).1,
{
}

/// The intercept of a least squares line times the count is what the slope times the sum of
/// the one leaves of the sum of the other, up to rounding: the line goes through the means.
pub proof fn line_goes_through_the_means(y: Seq<Real>, x: Seq<Real>)
    requires
        y.len() > 0,
        ({
            let (a, b) = line_of(y, x);
            &&& a.finite()
            &&& b.finite()
            &&& Real::count(y.len() as usize).finite()
            &&& Real::count(y.len() as usize).value() != 0
            &&& (sum_of_seq(y) - b * sum_of_seq(x)).finite()
        }),
    ensures
        ({
            let (a, b) = line_of(y, x);
            near_ratio(
                a,
                sum_of_seq(y).value() - (b * sum_of_seq(x)).value(),
                Real::count(y.len() as usize).value(),
                3,
            )
        }),
{
    let (a, b) = line_of(y, x);
    let n = Real::count(y.len() as usize);
    let (sx, sy) = (sum_of_seq(x), sum_of_seq(y));
    lemma_finite_terms(sy, (b * sx).neg());
    lemma_finite_factors(b, sx);
    lemma_sum_over(sy, b * sx, n);
    lemma_whole(0);
    assert(0 * pow2(1074) == 0);
    lemma_units_zero(0);
    lemma_zero_value(Real::whole(0));
    lemma_times_zero(sx, Real::whole(0));
    crate::num::drift::lemma_mul_commutes(sx, Real::whole(0));
    if b == Real::whole(0) && a == sy / n {
        lemma_operations_are_close(sy, n);
        let w = pow2(1074) as int;
        lemma_pow2_pos(1074);
        let t = size(sy.value()) * w;
        assert(t >= 0) by (nonlinear_arith)
            requires
                t == size(sy.value()) * w,
                w > 0,
        ;
    }
}

/// Half of the mass lies below the location.
pub proof fn location_is_the_median(f: Oracle, x0: Real, gamma: Real)
    requires
        x0.finite(),
        gamma.finite(),
        gamma.value() > 0,
        forall|z: Real| z.zero() ==> (#[trigger] f(Elementary::Atan(z))).zero(),
    ensures
        cauchy_cdf_of(f, x0, x0, gamma) == Real::ratio(1, 2),
{
    let d = x0 - x0;
    lemma_difference_sign(x0, x0);
    lemma_zero_value(d);
    lemma_zero_value(gamma);
    lemma_zero_over(d, gamma);
    let a = f(Elementary::Atan(d / gamma));
    lemma_pi();
    lemma_zero_over(a, pi());
    lemma_half();
    lemma_pow2_pos(1073);
    lemma_plus_zero(Real::ratio(1, 2), a / pi());
}

proof fn lemma_pi()
    ensures
        pi().finite(),
        pi().value() > 0,
{
    let p = pi();
    lemma_units_zero(p.mag());
    assert(pi().bits == 0x4009_21FB_5444_2D18);
}

/// No return is more likely than the location, where the logarithm never falls.
pub proof fn location_is_the_mode(f: Oracle, x: Real, x0: Real, gamma: Real)
    requires
        ln_is_monotone(f),
        x0.finite(),
        gamma.finite(),
        gamma.value() > 0,
        ((x - x0) / gamma).finite(),
        (Real::whole(1) + ((x - x0) / gamma) * ((x - x0) / gamma)).finite(),
        !cauchy_log_pdf_of(f, x, x0, gamma).nan(),
        !cauchy_log_pdf_of(f, x0, x0, gamma).nan(),
    ensures
        cauchy_log_pdf_of(f, x, x0, gamma) <= cauchy_log_pdf_of(f, x0, x0, gamma),
{
    let one = Real::whole(1);
    let w = pow2(1074) as int;
    lemma_pow2_pos(1074);
    lemma_whole(0);
    lemma_whole(1);
    assert(0 * w == 0 && 1 * w == w);
    let (z, o) = ((x - x0) / gamma, (x0 - x0) / gamma);
    lemma_difference_sign(x0, x0);
    lemma_zero_value(x0 - x0);
    lemma_zero_value(gamma);
    lemma_zero_over(x0 - x0, gamma);
    lemma_zero_value(o);
    lemma_times_zero(o, o);
    lemma_plus_zero(one, o * o);
    assert(one + o * o == one);
    lemma_finite_terms(one, z * z);
    lemma_square_not_negative(z);
    crate::num::order::lemma_add_grows(one, z * z);
    let c = ln_of(f, pi()).neg() - ln_of(f, gamma);
    let (a, b) = (ln_of(f, one + z * z), ln_of(f, one));
    assert(b <= a);
    crate::num::order::lemma_neg_order(b, a);
    assert(!(c + a.neg()).nan() && !(c + b.neg()).nan());
    lemma_not_nan_terms(c, a.neg());
    lemma_not_nan_terms(c, b.neg());
    lemma_add_commutes(c, a.neg());
    lemma_add_commutes(c, b.neg());
    lemma_add_monotone(a.neg(), b.neg(), c);
}

proof fn lemma_not_nan_terms(a: Real, b: Real)
    requires
        !(a + b).nan(),
    ensures
        !a.nan(),
        !b.nan(),
{
    reveal(Real::spec_add);
}

proof fn lemma_square_not_negative(z: Real)
    requires
        (z * z).finite(),
    ensures
        Real::whole(0) <= z * z,
{
    lemma_whole(0);
    assert(0 * pow2(1074) == 0);
    lemma_finite_factors(z, z);
    crate::num::rules::lemma_product_near(z, z);
    let v = z.value();
    assert(v * v >= 0) by (nonlinear_arith);
}

/// A criterion is twice the number of parameters less twice the log likelihood, up to
/// rounding.
pub open spec fn is_criterion(r: Real, parameters: int, ll: Real) -> bool {
    exists|t: Real| #[trigger]
        is_product(t, Real::whole(2), ll) && size(
            r.value() - (2 * parameters * pow2(1074) - t.value()),
        ) * PARTS <= size(2 * parameters * pow2(1074) - t.value())
}

/// The t distribution has three parameters and the Cauchy distribution has two.
pub proof fn criteria_count_the_parameters(t: StudentT, c: CauchyDist)
    requires
        t.aic().finite(),
        c.aic().finite(),
    ensures
        is_criterion(t.aic(), 3, t.log_likelihood),
        is_criterion(c.aic(), 2, c.log_likelihood),
{
    lemma_criterion(3, t.log_likelihood);
    lemma_criterion(2, c.log_likelihood);
}

proof fn lemma_criterion(k: i64, ll: Real)
    requires
        1 <= k <= 3,
        (Real::whole(2) * Real::whole(k) - Real::whole(2) * ll).finite(),
    ensures
        is_criterion(Real::whole(2) * Real::whole(k) - Real::whole(2) * ll, k as int, ll),
{
    let two = Real::whole(2);
    let (a, t) = (two * Real::whole(k), two * ll);
    let w = pow2(1074) as int;
    lemma_pow2_pos(1074);
    lemma_whole(2);
    lemma_whole(k);
    lemma_whole((2 * k) as i64);
    lemma_finite_terms(a, t.neg());
    lemma_zero_value(t.neg());
    lemma_finite_factors(two, ll);
    lemma_operations_are_close(two, ll);
    lemma_operations_are_close(a, t);
    assert(a.value() == 2 * k * w) by {
        reveal(Real::spec_mul);
        lemma_units_zero(two.mag());
        lemma_units_zero(Real::whole(k).mag());
        let (m, j) = (Real::whole((2 * k) as i64), k as int);
        crate::num::ops::lemma_round_exact(m.mag());
        lemma_units_zero(m.mag());
        assert((2 * w) * (j * w) == (2 * j * w) * w) by (nonlinear_arith);
        let (n, e) = (((2 * w) * (j * w)) as nat, (2 * j * w) as nat);
        crate::num::order::lemma_round_monotone(n, w as nat, e, 1);
        crate::num::order::lemma_round_monotone(e, 1, n, w as nat);
    }
    assert(is_product(t, two, ll));
}

/// As much mass lies above a number as below its negative, up to rounding, and half of it
/// below zero.
pub proof fn t_distribution_is_symmetric(f: Oracle, t: Real, nu: Real)
    requires
        Real::whole(0) < nu,
        nu.finite(),
        t.finite(),
        t_cdf_of(f, t, nu).finite(),
    ensures
        Real::whole(0) < t ==> is_sum(t_cdf_of(f, t, nu), Real::whole(1), t_cdf_of(f, t.neg(), nu).neg()),
        t.zero() && !t.negative() ==> t_cdf_of(f, t, nu) == Real::ratio(1, 2),
{
    let (one, half) = (Real::whole(1), Real::ratio(1, 2));
    let w = pow2(1074) as int;
    lemma_pow2_pos(1074);
    lemma_pow2_pos(1073);
    lemma_whole(0);
    lemma_whole(1);
    assert(0 * w == 0 && 1 * w == w);
    lemma_half();
    lemma_zero_value(t);
    lemma_zero_value(nu);
    if Real::whole(0) < t {
        let m = t.neg();
        assert(m * m == t * t) by {
            assert(!(t * t).nan()) by {
                reveal(Real::spec_mul);
                crate::num::order::lemma_round_bound(
                    crate::num::model::mag_units(t.mag()) * crate::num::model::mag_units(t.mag()),
                    pow2(1074),
                );
            }
            lemma_negated_factor(t, t);
            assert(!(t * m).nan());
            lemma_negated_factor(t, m);
            assert(t * m == (t * t).neg());
            lemma_double_negation(t * t);
        }
        let ib = incomplete_beta_of(f, nu / Real::whole(2), half, nu / (nu + t * t));
        assert(t_cdf_of(f, m, nu) == half * ib);
        lemma_operations_are_close(one, half * ib);
    }
    if t.zero() && !t.negative() {
        lemma_times_zero(t, t);
        lemma_plus_zero(nu, t * t);
        lemma_over_itself(nu);
        let ib = incomplete_beta_of(f, nu / Real::whole(2), half, one);
        lemma_whole_order(0, 1);
        assert(ib == one);
        lemma_times_one(half);
        assert(one - half == half) by {
            lemma_zero_value(half);
            reveal(Real::spec_add);
            lemma_units_zero(half.mag());
            crate::num::ops::lemma_round_exact(half.mag());
        }
    }
}

proof fn lemma_double_negation(a: Real)
    requires
        !a.nan(),
    ensures
        a.neg().neg() == a,
{
    lemma_zero_value(a);
}

/// Returns that lie as far to either side of the centre are equally likely.
pub proof fn t_density_is_symmetric(f: Oracle, x: Real, y: Real, mu: Real, sigma: Real, nu: Real)
    requires
        !((x - mu) / sigma).nan(),
        !(((x - mu) / sigma) * ((x - mu) / sigma)).nan(),
        y - mu == (x - mu).neg(),
    ensures
        t_log_pdf_of(f, x, mu, sigma, nu) == t_log_pdf_of(f, y, mu, sigma, nu),
{
    let (z, v) = ((x - mu) / sigma, (y - mu) / sigma);
    lemma_negated_term(x - mu, sigma);
    assert(v == z.neg());
    lemma_negated_factor(z, z);
    lemma_negated_factor(z, z.neg());
    lemma_double_negation(z * z);
}

/// The search for a quantile keeps it between its ends: the lower one has too little mass
/// below it unless it is the first, and the upper one enough.
pub proof fn search_keeps_the_quantile(f: Oracle, nu: Real, p: Real, n: nat)
    ensures
        ({
            let (lo, hi) = bisection(f, nu, p, n);
            &&& lo == Real::whole(50).neg() || t_cdf_of(f, lo, nu) < p
            &&& hi == Real::whole(0) || !(t_cdf_of(f, hi, nu) < p)
        }),
    decreases n,
{
    if n > 0 {
        search_keeps_the_quantile(f, nu, p, (n - 1) as nat);
    }
}

/// The value at risk is the centre and the quantile of what the confidence leaves of one at
/// the scale, up to rounding.
pub proof fn value_at_risk_is_a_quantile(d: StudentT, f: Oracle, alpha: Real)
    requires
        d.var_of(f, alpha).finite(),
    ensures
        exists|t: Real| #[trigger]
            is_product(t, d.sigma, t_quantile_of(f, d.nu, Real::whole(1) - alpha)) && is_sum(
                d.var_of(f, alpha),
                d.mu,
                t,
            ),
{
    let q = t_quantile_of(f, d.nu, Real::whole(1) - alpha);
    let t = d.sigma * q;
    lemma_finite_terms(d.mu, t);
    lemma_operations_are_close(d.sigma, q);
    lemma_operations_are_close(d.mu, t);
    assert(is_product(t, d.sigma, q));
}

/// The quantile of a probability is the location and the tangent at the scale, up to
/// rounding; that of one half is the location.
pub proof fn cauchy_quantile_is_a_tangent(d: CauchyDist, f: Oracle, p: Real)
    requires
        d.quantile_of(f, p).finite(),
        forall|z: Real| z.zero() ==> (#[trigger] f(Elementary::Tan(z))).zero(),
    ensures
        exists|t: Real| #[trigger]
            is_product(
                t,
                d.gamma,
                f(Elementary::Tan(pi() * (p - Real::ratio(1, 2)))),
            ) && is_sum(d.quantile_of(f, p), d.x0, t),
        p == Real::ratio(1, 2) ==> d.quantile_of(f, p).value() == d.x0.value(),
{
    let half = Real::ratio(1, 2);
    let a = f(Elementary::Tan(pi() * (p - half)));
    let t = d.gamma * a;
    lemma_finite_terms(d.x0, t);
    lemma_finite_factors(d.gamma, a);
    lemma_operations_are_close(d.gamma, a);
    lemma_operations_are_close(d.x0, t);
    assert(is_product(t, d.gamma, a));
    if p == half {
        lemma_half();
        lemma_difference_sign(half, half);
        lemma_zero_value(half - half);
        lemma_pi();
        lemma_times_zero(pi(), half - half);
        lemma_times_zero(d.gamma, a);
        lemma_plus_zero(d.x0, t);
    }
}

/// The statistic is no less than the distance of the distribution functions at any of the
/// first observations, and zero or one of these distances.
pub proof fn statistic_is_the_largest_distance(theoretical: Seq<Real>, n: nat)
    requires
        n <= theoretical.len(),
        forall|i: int|
            0 <= i < theoretical.len() ==> !(#[trigger] distance_at(theoretical, i)).nan(),
    ensures
        forall|i: int| 0 <= i < n ==> #[trigger] distance_at(theoretical, i) <= ks_of(theoretical, n),
        ks_of(theoretical, n) == Real::whole(0) || exists|i: int|
            0 <= i < n && ks_of(theoretical, n) == #[trigger] distance_at(theoretical, i),
        !ks_of(theoretical, n).nan(),
    decreases n,
{
    lemma_whole(0);
    assert(0 * pow2(1074) == 0);
    if n > 0 {
        let m = (n - 1) as nat;
        statistic_is_the_largest_distance(theoretical, m);
        let (a, d) = (ks_of(theoretical, m), distance_at(theoretical, n - 1));
        lemma_order_key(a, d);
        assert forall|i: int| 0 <= i < n implies #[trigger] distance_at(theoretical, i) <= ks_of(
            theoretical,
            n,
        ) by {
            if i < n - 1 {
                let x = distance_at(theoretical, i);
                lemma_order_key(x, a);
                lemma_order_key(x, d);
            }
        }
    }
}

/// The distance of the share of observations up to one of them from its theoretical value.
pub open spec fn distance_at(theoretical: Seq<Real>, i: int) -> Real {
    (Real::count((i + 1) as usize) / Real::count(theoretical.len() as usize) - theoretical[i]).abs()
}

/// The middle of an odd number of elements has as many before it as after it; that of an
/// even number lies halfway between the two in the middle, up to rounding.
pub proof fn middle_divides_the_elements(s: Seq<Real>)
    requires
        s.len() > 0,
    ensures
        s.len() % 2 == 1 ==> exists|i: int|
            0 <= i < s.len() && i == s.len() - 1 - i && middle_of(s) == #[trigger] s[i],
        s.len() % 2 == 0 && (s[s.len() / 2 - 1] + s[(s.len() / 2) as int]).finite() && middle_of(
            s,
        ).finite() ==> near_ratio(
            middle_of(s),
            s[s.len() / 2 - 1].value() + s[(s.len() / 2) as int].value(),
            Real::whole(2).value(),
            3,
        ),
{
    let n = s.len() as int;
    if n % 2 == 1 {
        assert(n / 2 == n - 1 - n / 2);
        assert(middle_of(s) == s[n / 2]);
    } else {
        lemma_whole(2);
        lemma_pow2_pos(1074);
        lemma_sum_over(s[n / 2 - 1], s[n / 2], Real::whole(2));
    }
}

/// The bin where the probabilities reach a target: those before it fall short, and with it
/// they do not.
pub proof fn target_is_reached_in_its_bin(probs: Seq<Real>, target: Real, n: nat)
    requires
        n <= probs.len(),
    ensures
        ({
            let r = reach(probs, target, n);
            &&& r.at matches Some(i) ==> 0 <= i < n && r.before == tally(probs.take(i)) && tally(
                probs.take(i + 1),
            ) >= target && (i > 0 ==> !(tally(probs.take(i)) >= target))
            &&& r.at is None ==> r.before == tally(probs.take(n as int))
            &&& r.at is None && n > 0 ==> !(tally(probs.take(n as int)) >= target)
        }),
    decreases n,
{
    if n > 0 {
        target_is_reached_in_its_bin(probs, target, (n - 1) as nat);
        assert(probs.take(n as int).drop_last() =~= probs.take(n - 1));
    }
}

/// A residual is what the line leaves of a price: the price less the intercept and less the
/// slope times the other price, up to rounding.
pub proof fn residual_is_what_the_line_leaves(
    y: Seq<Real>,
    x: Seq<Real>,
    alpha: Real,
    beta: Real,
    i: int,
)
    requires
        0 <= i < residuals_of(y, x, alpha, beta).len(),
        residuals_of(y, x, alpha, beta)[i].finite(),
    ensures
        exists|rest: Real, share: Real|
            #![trigger is_sum(rest, y[i], alpha.neg()), is_product(share, beta, x[i])]
            is_sum(rest, y[i], alpha.neg()) && is_product(share, beta, x[i]) && is_sum(
                residuals_of(y, x, alpha, beta)[i],
                rest,
                share.neg(),
            ),
{
    let (rest, share) = (y[i] - alpha, beta * x[i]);
    lemma_finite_terms(rest, share.neg());
    lemma_zero_value(share.neg());
    lemma_operations_are_close(y[i], alpha);
    lemma_operations_are_close(beta, x[i]);
    lemma_operations_are_close(rest, share);
    assert(is_sum(rest, y[i], alpha.neg()) && is_product(share, beta, x[i]));
}

/// A change is the later element less the earlier one, up to rounding.
pub proof fn change_is_later_less_earlier(s: Seq<Real>, i: int)
    requires
        0 <= i < s.len() - 1,
        changes_of(s)[i].finite(),
    ensures
        changes_of(s).len() == s.len() - 1,
        is_sum(changes_of(s)[i], s[i + 1], s[i].neg()),
{
    lemma_operations_are_close(s[i + 1], s[i]);
}

/// An outlier weighs no more than a return nearer to the centre.
pub proof fn outliers_weigh_less(rets: Seq<Real>, mu: Real, sigma: Real, nu: Real, i: int, j: int)
    requires
        0 <= i < rets.len(),
        0 <= j < rets.len(),
        Real::whole(0) < nu,
        nu.finite(),
        (nu + Real::whole(1)).finite(),
        ({
            let (z, v) = ((rets[i] - mu) / sigma, (rets[j] - mu) / sigma);
            &&& (z * z).finite() && (v * v).finite()
            &&& z * z <= v * v
            &&& (nu + z * z).finite() && (nu + v * v).finite()
        }),
    ensures
        t_weights(rets, mu, sigma, nu)[j] <= t_weights(rets, mu, sigma, nu)[i],
{
    let (z, v) = ((rets[i] - mu) / sigma, (rets[j] - mu) / sigma);
    let one = Real::whole(1);
    let w = pow2(1074) as int;
    lemma_pow2_pos(1074);
    lemma_whole(0);
    lemma_whole(1);
    assert(0 * w == 0 && 1 * w == w);
    lemma_whole_order(0, 1);
    lemma_square_not_negative(z);
    lemma_square_not_negative(v);
    lemma_add_commutes(nu, z * z);
    lemma_add_commutes(nu, v * v);
    lemma_add_monotone(z * z, v * v, nu);
    crate::num::order::lemma_add_grows(nu, z * z);
    lemma_order_key(nu, nu + z * z);
    lemma_order_key(Real::whole(0), nu + z * z);
    crate::num::order::lemma_add_grows(nu, one);
    lemma_order_key(nu, nu + one);
    lemma_order_key(Real::whole(0), nu + one);
    lemma_div_antitone(nu + one, nu + z * z, nu + v * v);
}

} // verus!
