//! Student's t distribution, fitted by expectation maximization.
use vstd::prelude::*;

use crate::num::constants::{least_normal, pi};
use crate::num::elementary::{
    ask, exp, exp_of, is_function, ln, ln_of, oracle, Elementary, Oracle,
};
use crate::num::order::{lemma_add_monotone, lemma_whole};
use crate::num::series::{all_numbers, mean, mean_of, sorted, sorted_of, sum, sum_of_seq};
use crate::num::Real;
use crate::stats::common::{ks_of, ks_statistic, sample_std, spread_of, TooFewObservations};

verus! {

/// Location-scale t distribution.
#[derive(Debug, Clone, Copy)]
pub struct StudentT {
    /// Location.
    pub mu: Real,
    /// Scale.
    pub sigma: Real,
    /// Degrees of freedom.
    pub nu: Real,
    pub log_likelihood: Real,
    pub ks_stat: Real,
}

/// The digamma function for arguments from six on, by its asymptotic series.
pub open spec fn digamma_series(f: Oracle, x: Real) -> Real {
    let r = Real::whole(1) / x;
    let r2 = r * r;
    ln_of(f, x) - Real::ratio(1, 2) * r - r2 * (Real::ratio(1, 12) - r2 * (Real::ratio(1, 120) - r2
        / Real::whole(252)))
}

/// The digamma function: small arguments are first raised by one, at most `n`
/// times.
pub open spec fn digamma_of(f: Oracle, x: Real, n: nat) -> Real
    decreases n,
{
    if x < Real::whole(6) && n > 0 {
        digamma_of(f, x + Real::whole(1), (n - 1) as nat) - Real::whole(1) / x
    } else {
        digamma_series(f, x)
    }
}

/// The trigamma function for arguments from six on, by its asymptotic series.
pub open spec fn trigamma_series(x: Real) -> Real {
    let r = Real::whole(1) / x;
    let r2 = r * r;
    r + Real::ratio(1, 2) * r2 + r * r2 / Real::whole(6) - r * (r2 * r2) / Real::whole(30)
}

/// The trigamma function: small arguments are first raised by one, at most `n`
/// times.
pub open spec fn trigamma_of(x: Real, n: nat) -> Real
    decreases n,
{
    if x < Real::whole(6) && n > 0 {
        trigamma_of(x + Real::whole(1), (n - 1) as nat) + Real::whole(1) / (x * x)
    } else {
        trigamma_series(x)
    }
}

/// How often an argument from one on is raised until it reaches six.
pub const SHIFTS: usize = 5;

/// An argument raised `n` times by one.
pub open spec fn raised(x: Real, n: nat) -> Real
    decreases n,
{
    if n == 0 {
        x
    } else {
        raised(x, (n - 1) as nat) + Real::whole(1)
    }
}

/// An argument of at least one reaches six in five steps, so that the limit on
/// the number of steps never matters for it.
pub proof fn five_shifts_reach_six(x: Real)
    requires
        Real::whole(1) <= x,
        x.finite(),
    ensures
        Real::whole(6) <= raised(x, SHIFTS as nat),
{
    lemma_raised(x, 5);
}

proof fn lemma_raised(x: Real, n: nat)
    requires
        Real::whole(1) <= x,
        x.finite(),
        n <= 5,
    ensures
        Real::whole((n + 1) as i64) <= raised(x, n),
    decreases n,
{
    if n > 0 {
        let m = (n - 1) as nat;
        lemma_raised(x, m);
        let y = raised(x, m);
        let one = Real::whole(1);
        lemma_whole((n + 1) as i64);
        lemma_whole(n as i64);
        lemma_whole(1);
        assert(Real::whole(n as i64) + one == Real::whole((n + 1) as i64)) by {
            reveal(Real::spec_add);
            let u = vstd::arithmetic::power2::pow2(1074);
            vstd::arithmetic::power2::lemma_pow2_pos(1074);
            assert(n * u + 1 * u == (n + 1) * u) by (nonlinear_arith);
            assert((n + 1) * u > 0) by (nonlinear_arith)
                requires
                    u > 0,
            ;
        }
        assert(!(y + one).nan()) by {
            reveal(Real::spec_add);
            crate::num::order::lemma_round_bound((y.value() + one.value()) as nat, 1);
            crate::num::order::lemma_round_bound((-(y.value() + one.value())) as nat, 1);
        }
        lemma_add_monotone(Real::whole(n as i64), y, one);
    }
}

fn digamma<M: Fn(Elementary) -> Real>(x: Real, n: usize, math: &M) -> (r: Real)
    requires
        is_function(*math),
    ensures
        r == digamma_of(oracle(*math), x, n as nat),
    decreases n,
{
    if x < Real::whole(6) && n > 0 {
        return digamma(x + Real::whole(1), n - 1, math) - Real::whole(1) / x;
    }
    let r = Real::whole(1) / x;
    let r2 = r * r;
    ln(math, x) - Real::ratio(1, 2) * r - r2 * (Real::ratio(1, 12) - r2 * (Real::ratio(1, 120) - r2
        / Real::whole(252)))
}

fn trigamma(x: Real, n: usize) -> (r: Real)
    ensures
        r == trigamma_of(x, n as nat),
    decreases n,
{
    if x < Real::whole(6) && n > 0 {
        return trigamma(x + Real::whole(1), n - 1) + Real::whole(1) / (x * x);
    }
    let r = Real::whole(1) / x;
    let r2 = r * r;
    r + Real::ratio(1, 2) * r2 + r * r2 / Real::whole(6) - r * (r2 * r2) / Real::whole(30)
}

/// Whether Newton's method has stopped, and where.
#[derive(Debug, Clone, Copy)]
pub struct Newton {
    pub nu: Real,
    pub done: bool,
}

/// One step of Newton's method for the degrees of freedom.
pub open spec fn newton_step(f: Oracle, target: Real, nu: Real) -> Newton {
    let two = Real::whole(2);
    let hi = (nu + Real::whole(1)) / two;
    let lo = nu / two;
    let n = SHIFTS as nat;
    let g = digamma_of(f, hi, n) - digamma_of(f, lo, n) - target;
    let dg = Real::ratio(1, 2) * trigamma_of(hi, n) - Real::ratio(1, 2) * trigamma_of(lo, n);
    let step = g / dg;
    if dg.abs() < Real::ratio(1, 1_000_000_000_000_000) {
        Newton { nu, done: true }
    } else {
        Newton {
            nu: (nu - step).max(Real::ratio(21, 10)),
            done: step.abs() < Real::ratio(1, 100_000_000),
        }
    }
}

/// Newton's method for the degrees of freedom after at most `n` steps.
pub open spec fn newton(f: Oracle, target: Real, n: nat) -> Newton
    decreases n,
{
    if n == 0 {
        Newton { nu: Real::whole(5), done: false }
    } else {
        let s = newton(f, target, (n - 1) as nat);
        if s.done {
            s
        } else {
            newton_step(f, target, s.nu)
        }
    }
}

proof fn lemma_newton_done(f: Oracle, target: Real, n: nat, m: nat)
    requires
        n <= m,
        newton(f, target, n).done,
    ensures
        newton(f, target, m) == newton(f, target, n),
    decreases m,
{
    if n < m {
        lemma_newton_done(f, target, n, (m - 1) as nat);
    }
}

fn nu_from_fixed_point<M: Fn(Elementary) -> Real>(target: Real, math: &M) -> (r: Real)
    requires
        is_function(*math),
    ensures
        r == newton(oracle(*math), target, 50).nu,
{
    let ghost f = oracle(*math);
    let two = Real::whole(2);
    let half = Real::ratio(1, 2);
    let mut nu = Real::whole(5);
    let mut n: usize = 0;
    while n < 50
        invariant
            is_function(*math),
            f == oracle(*math),
            two == Real::whole(2),
            half == Real::ratio(1, 2),
            n <= 50,
            newton(f, target, n as nat) == (Newton { nu, done: false }),
        decreases 50 - n,
    {
        let hi = (nu + Real::whole(1)) / two;
        let lo = nu / two;
        let g = digamma(hi, SHIFTS, math) - digamma(lo, SHIFTS, math) - target;
        let dg = half * trigamma(hi, SHIFTS) - half * trigamma(lo, SHIFTS);
        if dg.abs() < Real::ratio(1, 1_000_000_000_000_000) {
            proof {
                lemma_newton_done(f, target, (n + 1) as nat, 50);
            }
            return nu;
        }
        let step = g / dg;
        nu = (nu - step).max(Real::ratio(21, 10));
        if step.abs() < Real::ratio(1, 100_000_000) {
            proof {
                lemma_newton_done(f, target, (n + 1) as nat, 50);
            }
            return nu;
        }
        n += 1;
    }
    nu
}

/// The log density of the t distribution.
pub open spec fn t_log_pdf_of(f: Oracle, x: Real, mu: Real, sigma: Real, nu: Real) -> Real {
    let z = (x - mu) / sigma;
    let one = Real::whole(1);
    let two = Real::whole(2);
    f(Elementary::LnGamma((nu + one) / two)) - f(Elementary::LnGamma(nu / two)) - Real::ratio(1, 2)
        * ln_of(f, pi() * nu) - ln_of(f, sigma) - (nu + one) / two * ln_of(f, one + z * z / nu)
}

fn t_log_pdf<M: Fn(Elementary) -> Real>(x: Real, mu: Real, sigma: Real, nu: Real, math: &M) -> (r:
    Real)
    requires
        is_function(*math),
    ensures
        r == t_log_pdf_of(oracle(*math), x, mu, sigma, nu),
{
    let z = (x - mu) / sigma;
    let one = Real::whole(1);
    let two = Real::whole(2);
    ask(math, Elementary::LnGamma((nu + one) / two)) - ask(math, Elementary::LnGamma(nu / two))
        - Real::ratio(1, 2) * ln(math, pi() * nu) - ln(math, sigma) - (nu + one) / two * ln(
        math,
        one + z * z / nu,
    )
}

/// The density of the standard t distribution.
pub open spec fn t_pdf_of(f: Oracle, t: Real, nu: Real) -> Real {
    let one = Real::whole(1);
    let two = Real::whole(2);
    let lc = f(Elementary::LnGamma((nu + one) / two)) - f(Elementary::LnGamma(nu / two))
        - Real::ratio(1, 2) * ln_of(f, pi() * nu);
    exp_of(f, lc) * f(Elementary::Powf(one + t * t / nu, (nu + one).neg() / two))
}

fn t_pdf_std<M: Fn(Elementary) -> Real>(t: Real, nu: Real, math: &M) -> (r: Real)
    requires
        is_function(*math),
    ensures
        r == t_pdf_of(oracle(*math), t, nu),
{
    let one = Real::whole(1);
    let two = Real::whole(2);
    let lc = ask(math, Elementary::LnGamma((nu + one) / two)) - ask(
        math,
        Elementary::LnGamma(nu / two),
    ) - Real::ratio(1, 2) * ln(math, pi() * nu);
    exp(math, lc) * ask(math, Elementary::Powf(one + t * t / nu, (nu + one).neg() / two))
}

/// A number kept away from zero.
pub open spec fn spec_off_zero(x: Real) -> Real {
    if x.abs() < least_normal() {
        least_normal()
    } else {
        x
    }
}

/// A number kept away from zero.
#[verifier::when_used_as_spec(spec_off_zero)]
pub fn off_zero(x: Real) -> (r: Real)
    ensures
        r == spec_off_zero(x),
{
    if x.abs() < least_normal() {
        least_normal()
    } else {
        x
    }
}

/// State of the continued fraction.
#[derive(Debug, Clone, Copy)]
pub struct Fraction {
    pub c: Real,
    pub d: Real,
    pub h: Real,
    pub done: bool,
}

/// One half-step of the continued fraction with coefficient `aa`, and by how much
/// it changes the value.
pub open spec fn half_step(s: Fraction, aa: Real) -> (Fraction, Real) {
    let one = Real::whole(1);
    let d = one / off_zero(one + aa * s.d);
    let c = off_zero(one + aa / s.c);
    (Fraction { c, d, h: s.h * (d * c), done: s.done }, d * c)
}

fn half(s: Fraction, aa: Real) -> (r: (Fraction, Real))
    ensures
        r == half_step(s, aa),
{
    let one = Real::whole(1);
    let d = one / off_zero(one + aa * s.d);
    let c = off_zero(one + aa / s.c);
    (Fraction { c, d, h: s.h * (d * c), done: s.done }, d * c)
}

/// The even coefficient of step `m`.
pub open spec fn even_term(a: Real, b: Real, x: Real, m: Real) -> Real {
    let two = Real::whole(2);
    m * (b - m) * x / ((a + two * m - Real::whole(1)) * (a + two * m))
}

/// The odd coefficient of step `m`.
pub open spec fn odd_term(a: Real, b: Real, x: Real, m: Real) -> Real {
    let two = Real::whole(2);
    (a + m).neg() * (a + b + m) * x / ((a + two * m) * (a + two * m + Real::whole(1)))
}

/// The continued fraction of the incomplete beta function after at most `n`
/// steps.
pub open spec fn fraction(a: Real, b: Real, x: Real, n: nat) -> Fraction
    decreases n,
{
    let one = Real::whole(1);
    if n == 0 {
        let d0 = one - (a + b) * x / (a + one);
        let d = if d0.abs() < least_normal() {
            least_normal()
        } else {
            one / d0
        };
        Fraction { c: one, d, h: d, done: false }
    } else {
        let s = fraction(a, b, x, (n - 1) as nat);
        let m = Real::count(n as usize);
        let (s1, _) = half_step(s, even_term(a, b, x, m));
        let (s2, del) = half_step(s1, odd_term(a, b, x, m));
        if s.done {
            s
        } else {
            Fraction { done: (del - one).abs() < Real::ratio(3, 10_000_000), ..s2 }
        }
    }
}

proof fn lemma_fraction_done(a: Real, b: Real, x: Real, n: nat, m: nat)
    requires
        n <= m,
        fraction(a, b, x, n).done,
    ensures
        fraction(a, b, x, m) == fraction(a, b, x, n),
    decreases m,
{
    if n < m {
        lemma_fraction_done(a, b, x, n, (m - 1) as nat);
    }
}

fn betacf(a: Real, b: Real, x: Real) -> (r: Real)
    ensures
        r == fraction(a, b, x, 200).h,
{
    let one = Real::whole(1);
    let two = Real::whole(2);
    let d0 = one - (a + b) * x / (a + one);
    let d = if d0.abs() < least_normal() {
        least_normal()
    } else {
        one / d0
    };
    let mut s = Fraction { c: one, d, h: d, done: false };
    let mut n: usize = 0;
    while n < 200
        invariant
            n <= 200,
            one == Real::whole(1),
            two == Real::whole(2),
            s == fraction(a, b, x, n as nat),
            !s.done,
        decreases 200 - n,
    {
        n += 1;
        let m = Real::count(n);
        let even = m * (b - m) * x / ((a + two * m - one) * (a + two * m));
        let (s1, _) = half(s, even);
        let odd = (a + m).neg() * (a + b + m) * x / ((a + two * m) * (a + two * m + one));
        let (s2, del) = half(s1, odd);
        s = s2;
        if (del - one).abs() < Real::ratio(3, 10_000_000) {
            proof {
                lemma_fraction_done(a, b, x, n as nat, 200);
            }
            return s.h;
        }
    }
    s.h
}

/// The regularised incomplete beta function.
pub open spec fn incomplete_beta_of(f: Oracle, a: Real, b: Real, x: Real) -> Real {
    let one = Real::whole(1);
    let lbeta = f(Elementary::LnGamma(a + b)) - f(Elementary::LnGamma(a)) - f(
        Elementary::LnGamma(b),
    );
    let front = f(Elementary::Powf(x, a)) * f(Elementary::Powf(one - x, b)) * exp_of(f, lbeta) / a;
    if x <= Real::whole(0) {
        Real::whole(0)
    } else if x >= one {
        one
    } else {
        front * fraction(a, b, x, 200).h
    }
}

fn regularised_incomplete_beta<M: Fn(Elementary) -> Real>(
    a: Real,
    b: Real,
    x: Real,
    math: &M,
) -> (r: Real)
    requires
        is_function(*math),
    ensures
        r == incomplete_beta_of(oracle(*math), a, b, x),
{
    let one = Real::whole(1);
    if x <= Real::whole(0) {
        return Real::whole(0);
    }
    if x >= one {
        return one;
    }
    let lbeta = ask(math, Elementary::LnGamma(a + b)) - ask(math, Elementary::LnGamma(a)) - ask(
        math,
        Elementary::LnGamma(b),
    );
    let front = ask(math, Elementary::Powf(x, a)) * ask(math, Elementary::Powf(one - x, b)) * exp(
        math,
        lbeta,
    ) / a;
    front * betacf(a, b, x)
}

/// The distribution function of the standard t distribution.
pub open spec fn t_cdf_of(f: Oracle, t: Real, nu: Real) -> Real {
    let half = Real::ratio(1, 2);
    let ib = incomplete_beta_of(f, nu / Real::whole(2), half, nu / (nu + t * t));
    if t < Real::whole(0) {
        half * ib
    } else {
        Real::whole(1) - half * ib
    }
}

fn t_cdf_std<M: Fn(Elementary) -> Real>(t: Real, nu: Real, math: &M) -> (r: Real)
    requires
        is_function(*math),
    ensures
        r == t_cdf_of(oracle(*math), t, nu),
{
    let half = Real::ratio(1, 2);
    let x = nu / (nu + t * t);
    let ib = regularised_incomplete_beta(nu / Real::whole(2), half, x, math);
    if t < Real::whole(0) {
        half * ib
    } else {
        Real::whole(1) - half * ib
    }
}

/// The interval that bisection for a quantile has reached after `n` steps.
pub open spec fn bisection(f: Oracle, nu: Real, p: Real, n: nat) -> (Real, Real)
    decreases n,
{
    if n == 0 {
        (Real::whole(50).neg(), Real::whole(0))
    } else {
        let (lo, hi) = bisection(f, nu, p, (n - 1) as nat);
        let mid = (lo + hi) / Real::whole(2);
        if t_cdf_of(f, mid, nu) < p {
            (mid, hi)
        } else {
            (lo, mid)
        }
    }
}

/// The quantile of the standard t distribution for a probability of at most one
/// half.
pub open spec fn t_quantile_of(f: Oracle, nu: Real, p: Real) -> Real {
    let (lo, hi) = bisection(f, nu, p, 120);
    (lo + hi) / Real::whole(2)
}

fn t_quantile_bisect<M: Fn(Elementary) -> Real>(nu: Real, p: Real, math: &M) -> (r: Real)
    requires
        is_function(*math),
    ensures
        r == t_quantile_of(oracle(*math), nu, p),
{
    let mut lo = Real::whole(50).neg();
    let mut hi = Real::whole(0);
    let mut n: usize = 0;
    while n < 120
        invariant
            is_function(*math),
            n <= 120,
            (lo, hi) == bisection(oracle(*math), nu, p, n as nat),
        decreases 120 - n,
    {
        let mid = (lo + hi) / Real::whole(2);
        if t_cdf_std(mid, nu, math) < p {
            lo = mid;
        } else {
            hi = mid;
        }
        n += 1;
    }
    (lo + hi) / Real::whole(2)
}

/// The weights of observations: outliers weigh less.
pub open spec fn t_weights(rets: Seq<Real>, mu: Real, sigma: Real, nu: Real) -> Seq<Real> {
    rets.map_values(
        |r: Real|
            (nu + Real::whole(1)) / (nu + ((r - mu) / sigma) * ((r - mu) / sigma)),
    )
}

/// The weighted squared distances from the location.
pub open spec fn weighted_squares(rets: Seq<Real>, mu: Real, w: Seq<Real>) -> Seq<Real> {
    Seq::new(rets.len(), |i: int| w[i] * ((rets[i] - mu) * (rets[i] - mu)))
}

/// The terms of the condition for the degrees of freedom.
pub open spec fn nu_terms(
    f: Oracle,
    rets: Seq<Real>,
    mu: Real,
    sigma: Real,
    nu: Real,
    w: Seq<Real>,
) -> Seq<Real> {
    Seq::new(
        rets.len(),
        |i: int|
            {
                let z = (rets[i] - mu) / sigma;
                let q = z * z * nu / (nu + z * z);
                w[i] - ln_of(f, q) - w[i] * q
            },
    )
}

/// Scale and degrees of freedom after one step of expectation maximization.
pub open spec fn em_step(f: Oracle, rets: Seq<Real>, mu: Real, s: (Real, Real)) -> (Real, Real) {
    let n = Real::count(rets.len() as usize);
    let w = t_weights(rets, mu, s.0, s.1);
    let sigma = (sum_of_seq(weighted_squares(rets, mu, w)) / n).sqrt().max(
        Real::ratio(1, 10_000_000_000),
    );
    let rhs = Real::whole(1) + sum_of_seq(nu_terms(f, rets, mu, sigma, s.1, w)) / n;
    (sigma, newton(f, rhs, 50).nu.max(Real::ratio(21, 10)))
}

/// Scale and degrees of freedom after `n` steps.
pub open spec fn em_after(f: Oracle, rets: Seq<Real>, mu: Real, n: nat) -> (Real, Real)
    decreases n,
{
    if n == 0 {
        (spread_of(rets, mu).max(Real::ratio(1, 10_000_000_000)), Real::whole(5))
    } else {
        em_step(f, rets, mu, em_after(f, rets, mu, (n - 1) as nat))
    }
}

/// The log densities of observations.
pub open spec fn t_log_densities(
    f: Oracle,
    rets: Seq<Real>,
    mu: Real,
    sigma: Real,
    nu: Real,
) -> Seq<Real> {
    rets.map_values(|r: Real| t_log_pdf_of(f, r, mu, sigma, nu))
}

/// The distribution function at observations in ascending order.
pub open spec fn t_cdfs(f: Oracle, rets: Seq<Real>, mu: Real, sigma: Real, nu: Real) -> Seq<Real> {
    sorted_of(rets).map_values(|x: Real| t_cdf_of(f, (x - mu) / sigma, nu))
}

/// The distribution fitted to observations.
pub open spec fn t_fitted(f: Oracle, rets: Seq<Real>) -> StudentT {
    let mu = mean_of(rets);
    let (sigma, nu) = em_after(f, rets, mu, 200);
    StudentT {
        mu,
        sigma,
        nu,
        log_likelihood: sum_of_seq(t_log_densities(f, rets, mu, sigma, nu)),
        ks_stat: ks_of(t_cdfs(f, rets, mu, sigma, nu), rets.len()),
    }
}

fn em<M: Fn(Elementary) -> Real>(rets: &[Real], mu: Real, s: (Real, Real), math: &M) -> (r: (
    Real,
    Real,
))
    requires
        is_function(*math),
    ensures
        r == em_step(oracle(*math), rets@, mu, s),
{
    let ghost f = oracle(*math);
    let (sigma0, nu) = s;
    let n = Real::count(rets.len());
    let ghost all_w = t_weights(rets@, mu, sigma0, nu);
    let ghost all_q = weighted_squares(rets@, mu, all_w);
    let mut w: Vec<Real> = Vec::new();
    let mut squares: Vec<Real> = Vec::new();
    let mut i: usize = 0;
    while i < rets.len()
        invariant
            i <= rets@.len(),
            all_w == t_weights(rets@, mu, sigma0, nu),
            all_q == weighted_squares(rets@, mu, all_w),
            w@ =~= all_w.take(i as int),
            squares@ =~= all_q.take(i as int),
        decreases rets@.len() - i,
    {
        let d = rets[i] - mu;
        let z = d / sigma0;
        let wi = (nu + Real::whole(1)) / (nu + z * z);
        w.push(wi);
        squares.push(wi * (d * d));
        i += 1;
    }
    assert(w@ =~= all_w);
    assert(squares@ =~= all_q);
    let sigma = (sum(squares.as_slice()) / n).sqrt().max(Real::ratio(1, 10_000_000_000));
    let ghost all_t = nu_terms(f, rets@, mu, sigma, nu, all_w);
    let mut terms: Vec<Real> = Vec::new();
    let mut j: usize = 0;
    while j < rets.len()
        invariant
            is_function(*math),
            f == oracle(*math),
            j <= rets@.len(),
            w@ == all_w,
            w@.len() == rets@.len(),
            all_t == nu_terms(f, rets@, mu, sigma, nu, all_w),
            terms@ =~= all_t.take(j as int),
        decreases rets@.len() - j,
    {
        let z = (rets[j] - mu) / sigma;
        let q = z * z * nu / (nu + z * z);
        terms.push(w[j] - ln(math, q) - w[j] * q);
        j += 1;
    }
    assert(terms@ =~= all_t);
    let rhs = Real::whole(1) + sum(terms.as_slice()) / n;
    (sigma, nu_from_fixed_point(rhs, math).max(Real::ratio(21, 10)))
}

impl StudentT {
    /// Fits the distribution to observations; nothing with fewer than thirty.
    pub fn fit<M: Fn(Elementary) -> Real>(rets: &[Real], math: &M) -> (r: Result<
        Self,
        TooFewObservations,
    >)
        requires
            is_function(*math),
            rets@.len() >= 30 ==> all_numbers(rets@),
        ensures
            r == if rets@.len() < 30 {
                Err::<StudentT, TooFewObservations>(
                    TooFewObservations { have: rets@.len() as usize },
                )
            } else {
                Ok(t_fitted(oracle(*math), rets@))
            },
    {
        if rets.len() < 30 {
            return Err(TooFewObservations { have: rets.len() });
        }
        let ghost f = oracle(*math);
        let mu = mean(rets);
        let mut s = (sample_std(rets, mu).max(Real::ratio(1, 10_000_000_000)), Real::whole(5));
        let mut n: usize = 0;
        while n < 200
            invariant
                is_function(*math),
                n <= 200,
                s == em_after(oracle(*math), rets@, mu, n as nat),
            decreases 200 - n,
        {
            s = em(rets, mu, s, math);
            n += 1;
        }
        let (sigma, nu) = s;
        let order = sorted(rets);
        let ghost densities = t_log_densities(f, rets@, mu, sigma, nu);
        let ghost cdfs = t_cdfs(f, rets@, mu, sigma, nu);
        let mut logs: Vec<Real> = Vec::new();
        let mut theoretical: Vec<Real> = Vec::new();
        let mut i: usize = 0;
        while i < rets.len()
            invariant
                is_function(*math),
                f == oracle(*math),
                i <= rets@.len(),
                order@ == sorted_of(rets@),
                order@.len() == rets@.len(),
                densities == t_log_densities(f, rets@, mu, sigma, nu),
                cdfs == t_cdfs(f, rets@, mu, sigma, nu),
                logs@ =~= densities.take(i as int),
                theoretical@ =~= cdfs.take(i as int),
            decreases rets@.len() - i,
        {
            logs.push(t_log_pdf(rets[i], mu, sigma, nu, math));
            theoretical.push(t_cdf_std((order[i] - mu) / sigma, nu, math));
            i += 1;
        }
        assert(logs@ =~= densities);
        assert(theoretical@ =~= cdfs);
        Ok(
            Self {
                mu,
                sigma,
                nu,
                log_likelihood: sum(logs.as_slice()),
                ks_stat: ks_statistic(&theoretical),
            },
        )
    }

    pub open spec fn spec_aic(&self) -> Real {
        Real::whole(2) * Real::whole(3) - Real::whole(2) * self.log_likelihood
    }

    /// Akaike's criterion with three parameters.
    #[verifier::when_used_as_spec(spec_aic)]
    pub fn aic(&self) -> (r: Real)
        ensures
            r == self.spec_aic(),
    {
        Real::whole(2) * Real::whole(3) - Real::whole(2) * self.log_likelihood
    }

    /// The log density.
    pub fn log_pdf<M: Fn(Elementary) -> Real>(&self, x: Real, math: &M) -> (r: Real)
        requires
            is_function(*math),
        ensures
            r == t_log_pdf_of(oracle(*math), x, self.mu, self.sigma, self.nu),
    {
        t_log_pdf(x, self.mu, self.sigma, self.nu, math)
    }

    /// The distribution function.
    pub fn cdf<M: Fn(Elementary) -> Real>(&self, x: Real, math: &M) -> (r: Real)
        requires
            is_function(*math),
        ensures
            r == t_cdf_of(oracle(*math), (x - self.mu) / self.sigma, self.nu),
    {
        t_cdf_std((x - self.mu) / self.sigma, self.nu, math)
    }

    /// The value at risk.
    pub open spec fn var_of(&self, f: Oracle, alpha: Real) -> Real {
        self.mu + self.sigma * t_quantile_of(f, self.nu, Real::whole(1) - alpha)
    }

    /// The value at risk at confidence `alpha`: at `0.95`, the return that is
    /// undercut five percent of the time.
    pub fn var<M: Fn(Elementary) -> Real>(&self, alpha: Real, math: &M) -> (r: Real)
        requires
            is_function(*math),
        ensures
            r == self.var_of(oracle(*math), alpha),
    {
        let t_q = t_quantile_bisect(self.nu, Real::whole(1) - alpha, math);
        self.mu + self.sigma * t_q
    }

    /// The expected shortfall.
    pub open spec fn cvar_of(&self, f: Oracle, alpha: Real) -> Real {
        let v = self.var_of(f, alpha);
        let z = (v - self.mu) / self.sigma;
        let cdf = t_cdf_of(f, z, self.nu);
        if cdf < Real::ratio(1, 1_000_000_000_000_000) {
            v
        } else {
            self.mu + self.sigma * (t_pdf_of(f, z, self.nu).neg() * (self.nu + z * z) / ((self.nu
                - Real::whole(1)) * cdf))
        }
    }

    /// The expected shortfall at confidence `alpha`.
    pub fn cvar<M: Fn(Elementary) -> Real>(&self, alpha: Real, math: &M) -> (r: Real)
        requires
            is_function(*math),
        ensures
            r == self.cvar_of(oracle(*math), alpha),
    {
        let v = self.var(alpha, math);
        let z = (v - self.mu) / self.sigma;
        let pdf_z = t_pdf_std(z, self.nu, math);
        let cdf_z = t_cdf_std(z, self.nu, math);
        if cdf_z < Real::ratio(1, 1_000_000_000_000_000) {
            return v;
        }
        self.mu + self.sigma * (pdf_z.neg() * (self.nu + z * z) / ((self.nu - Real::whole(1))
            * cdf_z))
    }
}

} // verus!
