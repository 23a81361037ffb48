//! GARCH(1,1) with Student-t innovations, fitted by projected gradient ascent.
//!
//! The conditional variance is a constant, plus a share of the last squared
//! return, plus a share of the last variance; the two shares add up to less than
//! one.
use vstd::prelude::*;

use crate::num::constants::{minus_infinity, pi};
use crate::num::elementary::{ask, is_function, ln, ln_of, oracle, Elementary, Oracle};
use crate::num::order::lemma_ratio_order;
use crate::num::series::{
    squared_deviations, sum, sum_of_seq, sum_squared_deviations,
};
use crate::num::Real;

verus! {

/// The parameters of the model.
#[derive(Debug, Clone, Copy)]
pub struct GarchParams {
    pub omega: Real,
    pub alpha: Real,
    pub beta: Real,
    pub nu: Real,
}

/// A fitted model.
#[derive(Debug, Clone, Copy)]
pub struct Garch11 {
    /// Constant term.
    pub omega: Real,
    /// Share of the last squared return.
    pub alpha: Real,
    /// Share of the last variance.
    pub beta: Real,
    /// Degrees of freedom of the innovations.
    pub nu: Real,
    /// Log likelihood of the fit.
    pub log_likelihood: Real,
}

/// Why there is no fit: fewer than fifty observations.
#[derive(Debug, Clone, Copy, PartialEq, Eq, Structural)]
pub struct TooFewReturns {
    pub have: usize,
}

/// The mean squared distance from the mean.
pub open spec fn variance_of(s: Seq<Real>) -> Real {
    let n = Real::count(s.len() as usize);
    sum_of_seq(squared_deviations(s, sum_of_seq(s) / n)) / n
}

fn sample_variance(xs: &[Real]) -> (r: Real)
    ensures
        r == variance_of(xs@),
{
    let n = Real::count(xs.len());
    let mu = sum(xs) / n;
    sum_squared_deviations(xs, mu) / n
}

/// The variance in the long run.
pub open spec fn long_run(omega: Real, alpha: Real, beta: Real) -> Real {
    omega / (Real::whole(1) - alpha - beta).max(Real::ratio(1, 10_000_000_000))
}

/// The conditional variance given the first `n` returns; before them, the
/// variance in the long run.
pub open spec fn variance_after(
    rets: Seq<Real>,
    omega: Real,
    alpha: Real,
    beta: Real,
    n: nat,
) -> Real
    decreases n,
{
    if n == 0 {
        long_run(omega, alpha, beta).max(Real::ratio(1, 1_000_000_000_000))
    } else {
        omega + alpha * rets[n - 1] * rets[n - 1] + beta * variance_after(
            rets,
            omega,
            alpha,
            beta,
            (n - 1) as nat,
        )
    }
}

/// The conditional variances: each given the returns before it.
pub open spec fn variances_of(rets: Seq<Real>, omega: Real, alpha: Real, beta: Real) -> Seq<Real> {
    Seq::new(rets.len(), |i: int| variance_after(rets, omega, alpha, beta, i as nat))
}

proof fn lemma_variance_agrees(
    a: Seq<Real>,
    b: Seq<Real>,
    omega: Real,
    alpha: Real,
    beta: Real,
    n: nat,
)
    requires
        n <= a.len(),
        n <= b.len(),
        forall|i: int| 0 <= i < n ==> a[i] == #[trigger] b[i],
    ensures
        variance_after(a, omega, alpha, beta, n) == variance_after(b, omega, alpha, beta, n),
    decreases n,
{
    if n > 0 {
        lemma_variance_agrees(a, b, omega, alpha, beta, (n - 1) as nat);
        assert(a[n - 1] == b[n - 1]);
    }
}

/// A conditional variance depends on earlier returns only: series that differ in
/// their last return alone have the same variances.
pub proof fn variances_look_back(
    a: Seq<Real>,
    b: Seq<Real>,
    omega: Real,
    alpha: Real,
    beta: Real,
)
    requires
        a.len() == b.len(),
        forall|i: int| 0 <= i < a.len() - 1 ==> a[i] == #[trigger] b[i],
    ensures
        variances_of(a, omega, alpha, beta) == variances_of(b, omega, alpha, beta),
{
    let (va, vb) = (variances_of(a, omega, alpha, beta), variances_of(b, omega, alpha, beta));
    assert forall|i: int| 0 <= i < a.len() implies va[i] == vb[i] by {
        lemma_variance_agrees(a, b, omega, alpha, beta, i as nat);
    }
    assert(va =~= vb);
}

fn conditional_variances_inner(rets: &[Real], omega: Real, alpha: Real, beta: Real) -> (r: Vec<Real>)
    ensures
        r@ == variances_of(rets@, omega, alpha, beta),
{
    let mut h_prev = (omega / (Real::whole(1) - alpha - beta).max(
        Real::ratio(1, 10_000_000_000),
    )).max(Real::ratio(1, 1_000_000_000_000));
    let mut h: Vec<Real> = Vec::new();
    let mut i: usize = 0;
    while i < rets.len()
        invariant
            i <= rets@.len(),
            h_prev == variance_after(rets@, omega, alpha, beta, i as nat),
            h@ =~= variances_of(rets@, omega, alpha, beta).take(i as int),
        decreases rets@.len() - i,
    {
        let r = rets[i];
        h.push(h_prev);
        h_prev = omega + alpha * r * r + beta * h_prev;
        i += 1;
    }
    assert(h@ =~= variances_of(rets@, omega, alpha, beta));
    h
}

impl GarchParams {
    /// The parameters are positive, stationary and of finite variance.
    pub open spec fn valid(&self) -> bool {
        let o = Real::whole(0);
        !(self.omega <= o || self.alpha <= o || self.beta <= o || self.alpha + self.beta
            >= Real::whole(1) || self.nu <= Real::whole(2))
    }
}

/// The part of the log density that does not depend on the return.
pub open spec fn density_constant(f: Oracle, nu: Real) -> Real {
    f(Elementary::LnGamma((nu + Real::whole(1)) / Real::whole(2))) - f(
        Elementary::LnGamma(nu / Real::whole(2)),
    ) - Real::ratio(1, 2) * ln_of(f, pi() * (nu - Real::whole(2)))
}

/// The log densities of returns; minus infinity where a variance is not positive.
pub open spec fn log_densities(f: Oracle, rets: Seq<Real>, p: GarchParams) -> Seq<Real> {
    let h = variances_of(rets, p.omega, p.alpha, p.beta);
    Seq::new(
        rets.len(),
        |i: int|
            if h[i] <= Real::whole(0) {
                minus_infinity()
            } else {
                density_constant(f, p.nu) - Real::ratio(1, 2) * ln_of(f, h[i]) - (p.nu
                    + Real::whole(1)) / Real::whole(2) * ln_of(
                    f,
                    Real::whole(1) + rets[i] * rets[i] / (h[i] * (p.nu - Real::whole(2))),
                )
            },
    )
}

/// The log likelihood of returns; minus infinity for parameters out of range.
pub open spec fn likelihood(f: Oracle, rets: Seq<Real>, p: GarchParams) -> Real {
    if !p.valid() {
        minus_infinity()
    } else {
        sum_of_seq(log_densities(f, rets, p))
    }
}

fn garch_ll<M: Fn(Elementary) -> Real>(rets: &[Real], p: &GarchParams, math: &M) -> (r: Real)
    requires
        is_function(*math),
    ensures
        r == likelihood(oracle(*math), rets@, *p),
{
    let o = Real::whole(0);
    if p.omega <= o || p.alpha <= o || p.beta <= o || p.alpha + p.beta >= Real::whole(1) || p.nu
        <= Real::whole(2) {
        return minus_infinity();
    }
    let ghost f = oracle(*math);
    let two = Real::whole(2);
    let h = conditional_variances_inner(rets, p.omega, p.alpha, p.beta);
    let log_const = ask(math, Elementary::LnGamma((p.nu + Real::whole(1)) / two)) - ask(
        math,
        Elementary::LnGamma(p.nu / two),
    ) - Real::ratio(1, 2) * ln(math, pi() * (p.nu - two));
    let ghost goal = log_densities(f, rets@, *p);
    let mut terms: Vec<Real> = Vec::new();
    let mut i: usize = 0;
    while i < rets.len()
        invariant
            is_function(*math),
            f == oracle(*math),
            i <= rets@.len(),
            two == Real::whole(2),
            h@ == variances_of(rets@, p.omega, p.alpha, p.beta),
            log_const == density_constant(f, p.nu),
            goal == log_densities(f, rets@, *p),
            terms@ =~= goal.take(i as int),
        decreases rets@.len() - i,
    {
        let r = rets[i];
        let v = h[i];
        let t = if v <= Real::whole(0) {
            minus_infinity()
        } else {
            log_const - Real::ratio(1, 2) * ln(math, v) - (p.nu + Real::whole(1)) / two * ln(
                math,
                Real::whole(1) + r * r / (v * (p.nu - two)),
            )
        };
        terms.push(t);
        i += 1;
    }
    assert(terms@ =~= goal);
    sum(terms.as_slice())
}

/// The parameters with parameter `i` moved by `d`.
pub open spec fn moved(p: GarchParams, i: int, d: Real) -> GarchParams {
    if i == 0 {
        GarchParams { omega: p.omega + d, ..p }
    } else if i == 1 {
        GarchParams { alpha: p.alpha + d, ..p }
    } else if i == 2 {
        GarchParams { beta: p.beta + d, ..p }
    } else {
        GarchParams { nu: p.nu + d, ..p }
    }
}

fn shifted(p: &GarchParams, i: usize, d: Real) -> (r: GarchParams)
    ensures
        r == moved(*p, i as int, d),
{
    let mut q = *p;
    match i {
        0 => {
            q.omega = q.omega + d;
        },
        1 => {
            q.alpha = q.alpha + d;
        },
        2 => {
            q.beta = q.beta + d;
        },
        _ => {
            q.nu = q.nu + d;
        },
    }
    q
}

/// The central difference of the log likelihood along parameter `i`.
pub open spec fn gradient(f: Oracle, rets: Seq<Real>, p: GarchParams, i: int) -> Real {
    let eps = Real::ratio(1, 10_000_000);
    (likelihood(f, rets, moved(p, i, eps)) - likelihood(f, rets, moved(p, i, eps.neg()))) / (
    Real::whole(2) * eps)
}

fn slope<M: Fn(Elementary) -> Real>(rets: &[Real], p: &GarchParams, i: usize, math: &M) -> (r: Real)
    requires
        is_function(*math),
    ensures
        r == gradient(oracle(*math), rets@, *p, i as int),
{
    let eps = Real::ratio(1, 10_000_000);
    let hi = shifted(p, i, eps);
    let lo = shifted(p, i, eps.neg());
    (garch_ll(rets, &hi, math) - garch_ll(rets, &lo, math)) / (Real::whole(2) * eps)
}

/// Shares scaled down where they add up to almost one or more.
pub open spec fn projected(p: GarchParams) -> GarchParams {
    let limit = Real::ratio(9999, 10_000);
    if p.alpha + p.beta >= limit {
        let scale = limit / (p.alpha + p.beta);
        GarchParams { alpha: p.alpha * scale, beta: p.beta * scale, ..p }
    } else {
        p
    }
}

/// One step of ascent, within the parameters' ranges.
pub open spec fn ascended(f: Oracle, rets: Seq<Real>, p: GarchParams) -> GarchParams {
    let lr = Real::ratio(1, 100_000);
    projected(
        GarchParams {
            omega: (p.omega + lr * gradient(f, rets, p, 0)).max(
                Real::ratio(1, 1_000_000_000_000),
            ),
            alpha: (p.alpha + lr * gradient(f, rets, p, 1)).clamp(
                Real::ratio(1, 100),
                Real::ratio(49, 100),
            ),
            beta: (p.beta + lr * gradient(f, rets, p, 2)).clamp(
                Real::ratio(1, 100),
                Real::ratio(98, 100),
            ),
            nu: (p.nu + lr * Real::whole(100) * gradient(f, rets, p, 3)).max(Real::ratio(21, 10)),
        },
    )
}

fn ascend<M: Fn(Elementary) -> Real>(rets: &[Real], p: &GarchParams, math: &M) -> (r: GarchParams)
    requires
        is_function(*math),
    ensures
        r == ascended(oracle(*math), rets@, *p),
{
    let lr = Real::ratio(1, 100_000);
    proof {
        lemma_ratio_order(1, 100, 49, 100);
        lemma_ratio_order(1, 100, 98, 100);
    }
    let mut q = GarchParams {
        omega: (p.omega + lr * slope(rets, p, 0, math)).max(Real::ratio(1, 1_000_000_000_000)),
        alpha: (p.alpha + lr * slope(rets, p, 1, math)).clamp(
            Real::ratio(1, 100),
            Real::ratio(49, 100),
        ),
        beta: (p.beta + lr * slope(rets, p, 2, math)).clamp(
            Real::ratio(1, 100),
            Real::ratio(98, 100),
        ),
        nu: (p.nu + lr * Real::whole(100) * slope(rets, p, 3, math)).max(Real::ratio(21, 10)),
    };
    let limit = Real::ratio(9999, 10_000);
    if q.alpha + q.beta >= limit {
        let scale = limit / (q.alpha + q.beta);
        q.alpha = q.alpha * scale;
        q.beta = q.beta * scale;
    }
    q
}

/// A state of the ascent: where it is, and the best so far.
#[derive(Debug, Clone, Copy)]
pub struct Ascent {
    pub at: GarchParams,
    pub best_ll: Real,
    pub best: GarchParams,
}

/// The ascent after `n` steps.
pub open spec fn ascent(f: Oracle, rets: Seq<Real>, start: GarchParams, n: nat) -> Ascent
    decreases n,
{
    if n == 0 {
        Ascent { at: start, best_ll: minus_infinity(), best: start }
    } else {
        let s = ascent(f, rets, start, (n - 1) as nat);
        let ll = likelihood(f, rets, s.at);
        Ascent {
            at: ascended(f, rets, s.at),
            best_ll: if ll > s.best_ll {
                ll
            } else {
                s.best_ll
            },
            best: if ll > s.best_ll {
                s.at
            } else {
                s.best
            },
        }
    }
}

/// Where the ascent starts.
pub open spec fn initial(rets: Seq<Real>) -> GarchParams {
    GarchParams {
        omega: variance_of(rets) * Real::ratio(5, 100),
        alpha: Real::ratio(10, 100),
        beta: Real::ratio(85, 100),
        nu: Real::whole(6),
    }
}

/// Number of steps of the ascent.
pub const STEPS: usize = 5000;

/// The fitted model has the best parameters of the ascent and their likelihood.
pub open spec fn fitted(f: Oracle, rets: Seq<Real>) -> Garch11 {
    let s = ascent(f, rets, initial(rets), STEPS as nat);
    Garch11 {
        omega: s.best.omega,
        alpha: s.best.alpha,
        beta: s.best.beta,
        nu: s.best.nu,
        log_likelihood: s.best_ll,
    }
}

proof fn lemma_best(f: Oracle, rets: Seq<Real>, start: GarchParams, n: nat)
    ensures
        ({
            let s = ascent(f, rets, start, n);
            &&& !s.best_ll.nan()
            &&& s.best_ll == minus_infinity() || (s.best_ll == likelihood(f, rets, s.best)
                && s.best.valid())
        }),
    decreases n,
{
    if n > 0 {
        lemma_best(f, rets, start, (n - 1) as nat);
    }
}

/// A fit with a likelihood has positive parameters, shares that add up to less
/// than one, and more than two degrees of freedom; its likelihood is that of its
/// parameters.
pub proof fn fit_is_stationary(f: Oracle, rets: Seq<Real>)
    requires
        fitted(f, rets).log_likelihood > minus_infinity(),
    ensures
        ({
            let g = fitted(f, rets);
            let p = GarchParams { omega: g.omega, alpha: g.alpha, beta: g.beta, nu: g.nu };
            &&& p.valid()
            &&& g.log_likelihood == likelihood(f, rets, p)
        }),
{
    lemma_best(f, rets, initial(rets), STEPS as nat);
}

impl Garch11 {
    /// Fits the model to returns; nothing with fewer than fifty.
    pub fn fit<M: Fn(Elementary) -> Real>(rets: &[Real], math: &M) -> (r: Result<
        Self,
        TooFewReturns,
    >)
        requires
            is_function(*math),
        ensures
            r == if rets@.len() < 50 {
                Err::<Garch11, TooFewReturns>(TooFewReturns { have: rets@.len() as usize })
            } else {
                Ok(fitted(oracle(*math), rets@))
            },
    {
        if rets.len() < 50 {
            return Err(TooFewReturns { have: rets.len() });
        }
        let start = GarchParams {
            omega: sample_variance(rets) * Real::ratio(5, 100),
            alpha: Real::ratio(10, 100),
            beta: Real::ratio(85, 100),
            nu: Real::whole(6),
        };
        let mut s = Ascent { at: start, best_ll: minus_infinity(), best: start };
        let mut n: usize = 0;
        while n < STEPS
            invariant
                is_function(*math),
                n <= STEPS,
                s == ascent(oracle(*math), rets@, start, n as nat),
            decreases STEPS - n,
        {
            let ll = garch_ll(rets, &s.at, math);
            let mut next = s;
            if ll > s.best_ll {
                next.best_ll = ll;
                next.best = s.at;
            }
            next.at = ascend(rets, &s.at, math);
            s = next;
            n += 1;
        }
        Ok(
            Self {
                omega: s.best.omega,
                alpha: s.best.alpha,
                beta: s.best.beta,
                nu: s.best.nu,
                log_likelihood: s.best_ll,
            },
        )
    }

    /// The conditional variances.
    pub fn conditional_variances(&self, rets: &[Real]) -> (r: Vec<Real>)
        ensures
            r@ == variances_of(rets@, self.omega, self.alpha, self.beta),
    {
        conditional_variances_inner(rets, self.omega, self.alpha, self.beta)
    }

    /// The standard deviation one step ahead.
    pub open spec fn sigma_ahead(&self, rets: Seq<Real>) -> Real {
        let n = rets.len();
        let last_var = if n == 0 {
            long_run(self.omega, self.alpha, self.beta)
        } else {
            variance_after(rets, self.omega, self.alpha, self.beta, (n - 1) as nat)
        };
        let last_eps2 = if n == 0 {
            Real::whole(0)
        } else {
            rets.last() * rets.last()
        };
        (self.omega + self.alpha * last_eps2 + self.beta * last_var).sqrt()
    }

    /// The standard deviation one step ahead.
    pub fn forecast_sigma(&self, rets: &[Real]) -> (r: Real)
        ensures
            r == self.sigma_ahead(rets@),
    {
        let variances = self.conditional_variances(rets);
        let n: usize = rets.len();
        let last_var = if n == 0 {
            self.unconditional_var()
        } else {
            variances[n - 1]
        };
        let last_eps2 = if n == 0 {
            Real::whole(0)
        } else {
            rets[n - 1] * rets[n - 1]
        };
        (self.omega + self.alpha * last_eps2 + self.beta * last_var).sqrt()
    }

    /// The variance in the long run.
    pub fn unconditional_var(&self) -> (r: Real)
        ensures
            r == long_run(self.omega, self.alpha, self.beta),
    {
        self.omega / (Real::whole(1) - self.alpha - self.beta).max(Real::ratio(1, 10_000_000_000))
    }

    /// The volatility in the long run per year.
    pub fn annual_vol(&self, bars_per_year: Real) -> (r: Real)
        ensures
            r == (long_run(self.omega, self.alpha, self.beta) * bars_per_year).sqrt(),
    {
        (self.unconditional_var() * bars_per_year).sqrt()
    }
}

} // verus!
