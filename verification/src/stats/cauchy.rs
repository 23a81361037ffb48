//! Cauchy distribution, fitted by alternating maximum likelihood steps for
//! location and scale.
use vstd::prelude::*;

use crate::num::constants::{minus_infinity, pi, tiny20};
use crate::num::elementary::{ask, is_function, ln, ln_of, oracle, Elementary, Oracle};
use crate::num::series::{
    all_numbers, dot, products, sorted, sorted_of, squared_deviations, sum, sum_of_seq,
};
use crate::num::Real;
use crate::stats::common::{ks_of, ks_statistic, middle, middle_of, TooFewObservations};

verus! {

/// Cauchy distribution.
#[derive(Debug, Clone, Copy)]
pub struct CauchyDist {
    /// Location: the median.
    pub x0: Real,
    /// Scale: the half-width at half of the maximum.
    pub gamma: Real,
    pub log_likelihood: Real,
    pub ks_stat: Real,
}

/// The log density of the Cauchy distribution.
pub open spec fn cauchy_log_pdf_of(f: Oracle, x: Real, x0: Real, gamma: Real) -> Real {
    let z = (x - x0) / gamma;
    ln_of(f, pi()).neg() - ln_of(f, gamma) - ln_of(f, Real::whole(1) + z * z)
}

fn cauchy_log_pdf<M: Fn(Elementary) -> Real>(x: Real, x0: Real, gamma: Real, math: &M) -> (r: Real)
    requires
        is_function(*math),
    ensures
        r == cauchy_log_pdf_of(oracle(*math), x, x0, gamma),
{
    let z = (x - x0) / gamma;
    ln(math, pi()).neg() - ln(math, gamma) - ln(math, Real::whole(1) + z * z)
}

/// The distribution function of the Cauchy distribution.
pub open spec fn cauchy_cdf_of(f: Oracle, x: Real, x0: Real, gamma: Real) -> Real {
    Real::ratio(1, 2) + f(Elementary::Atan((x - x0) / gamma)) / pi()
}

fn cauchy_cdf<M: Fn(Elementary) -> Real>(x: Real, x0: Real, gamma: Real, math: &M) -> (r: Real)
    requires
        is_function(*math),
    ensures
        r == cauchy_cdf_of(oracle(*math), x, x0, gamma),
{
    Real::ratio(1, 2) + ask(math, Elementary::Atan((x - x0) / gamma)) / pi()
}

/// The log likelihood of observations.
pub open spec fn cauchy_likelihood(f: Oracle, rets: Seq<Real>, x0: Real, gamma: Real) -> Real {
    sum_of_seq(rets.map_values(|r: Real| cauchy_log_pdf_of(f, r, x0, gamma)))
}

fn cauchy_log_likelihood<M: Fn(Elementary) -> Real>(
    rets: &[Real],
    x0: Real,
    gamma: Real,
    math: &M,
) -> (r: Real)
    requires
        is_function(*math),
    ensures
        r == cauchy_likelihood(oracle(*math), rets@, x0, gamma),
{
    let ghost f = oracle(*math);
    let ghost goal = rets@.map_values(|r: Real| cauchy_log_pdf_of(f, r, x0, gamma));
    let mut v: Vec<Real> = Vec::new();
    let mut i: usize = 0;
    while i < rets.len()
        invariant
            is_function(*math),
            f == oracle(*math),
            i <= rets@.len(),
            goal == rets@.map_values(|r: Real| cauchy_log_pdf_of(f, r, x0, gamma)),
            v@ =~= goal.take(i as int),
        decreases rets@.len() - i,
    {
        v.push(cauchy_log_pdf(rets[i], x0, gamma, math));
        i += 1;
    }
    assert(v@ =~= goal);
    sum(v.as_slice())
}

/// The Cauchy weights of squared distances.
pub open spec fn cauchy_weights(s: Seq<Real>, gamma: Real) -> Seq<Real> {
    s.map_values(|x: Real| Real::whole(1) / (gamma * gamma + x))
}

/// The location after one step: the weighted mean, unless there is no weight.
pub open spec fn next_location(rets: Seq<Real>, x0: Real, gamma: Real) -> Real {
    let w = cauchy_weights(squared_deviations(rets, x0), gamma);
    if sum_of_seq(w) > Real::ratio(1, 1_000_000_000_000_000) {
        sum_of_seq(products(rets, w)) / sum_of_seq(w)
    } else {
        x0
    }
}

/// The scale after one step: Newton's method for its square.
pub open spec fn next_scale(rets: Seq<Real>, x0: Real, gamma: Real) -> Real {
    let s = squared_deviations(rets, x0);
    let u = gamma * gamma;
    let h = sum_of_seq(s.map_values(|x: Real| u / (u + x))) - Real::count(rets.len() as usize)
        / Real::whole(2);
    let hp = sum_of_seq(s.map_values(|x: Real| x / ((u + x) * (u + x))));
    if hp.abs() > Real::ratio(1, 1_000_000_000_000_000) {
        (u - h / hp).max(tiny20()).sqrt()
    } else {
        gamma
    }
}

/// State of the alternating steps: where they are, and the best so far.
#[derive(Debug, Clone, Copy)]
pub struct Alternation {
    pub x0: Real,
    pub gamma: Real,
    pub best_ll: Real,
    pub best_x0: Real,
    pub best_gamma: Real,
}

/// The state after one more step.
pub open spec fn alternated(f: Oracle, rets: Seq<Real>, s: Alternation) -> Alternation {
    let x0 = next_location(rets, s.x0, s.gamma);
    let gamma = next_scale(rets, s.x0, s.gamma);
    let ll = cauchy_likelihood(f, rets, x0, gamma);
    if ll > s.best_ll {
        Alternation { x0, gamma, best_ll: ll, best_x0: x0, best_gamma: gamma }
    } else {
        Alternation { x0, gamma, ..s }
    }
}

/// Where the steps start: the median, and half of the distance between the
/// quartiles.
pub open spec fn cauchy_start(rets: Seq<Real>) -> Alternation {
    let s = sorted_of(rets);
    let n = rets.len() as int;
    let x0 = middle_of(s);
    let gamma = ((s[(3 * n) / 4] - s[n / 4]) / Real::whole(2)).max(
        Real::ratio(1, 10_000_000_000),
    );
    Alternation { x0, gamma, best_ll: minus_infinity(), best_x0: x0, best_gamma: gamma }
}

/// The state after `n` steps.
pub open spec fn alternation(f: Oracle, rets: Seq<Real>, n: nat) -> Alternation
    decreases n,
{
    if n == 0 {
        cauchy_start(rets)
    } else {
        alternated(f, rets, alternation(f, rets, (n - 1) as nat))
    }
}

/// The distribution function at observations in ascending order.
pub open spec fn cauchy_cdfs(f: Oracle, rets: Seq<Real>, x0: Real, gamma: Real) -> Seq<Real> {
    sorted_of(rets).map_values(|x: Real| cauchy_cdf_of(f, x, x0, gamma))
}

/// The distribution fitted to observations.
pub open spec fn cauchy_fitted(f: Oracle, rets: Seq<Real>) -> CauchyDist {
    let s = alternation(f, rets, 300);
    CauchyDist {
        x0: s.best_x0,
        gamma: s.best_gamma,
        log_likelihood: s.best_ll,
        ks_stat: ks_of(cauchy_cdfs(f, rets, s.best_x0, s.best_gamma), rets.len()),
    }
}

/// The likelihood of a fit is at least that of every point the steps passed, as
/// far as the likelihoods are numbers.
pub proof fn cauchy_fit_keeps_the_best(f: Oracle, rets: Seq<Real>, n: nat, i: nat)
    requires
        0 < i <= n,
    ensures
        ({
            let s = alternation(f, rets, i);
            !(cauchy_likelihood(f, rets, s.x0, s.gamma) > alternation(f, rets, n).best_ll)
        }),
        !alternation(f, rets, n).best_ll.nan(),
    decreases n,
{
    lemma_best_number(f, rets, (n - 1) as nat);
    if i < n {
        cauchy_fit_keeps_the_best(f, rets, (n - 1) as nat, i);
    }
}

proof fn lemma_best_number(f: Oracle, rets: Seq<Real>, n: nat)
    ensures
        !alternation(f, rets, n).best_ll.nan(),
    decreases n,
{
    if n > 0 {
        lemma_best_number(f, rets, (n - 1) as nat);
    }
}

fn step<M: Fn(Elementary) -> Real>(rets: &[Real], s: Alternation, math: &M) -> (r: Alternation)
    requires
        is_function(*math),
    ensures
        r == alternated(oracle(*math), rets@, s),
{
    let u = s.gamma * s.gamma;
    let ghost sq = squared_deviations(rets@, s.x0);
    let ghost all_w = cauchy_weights(sq, s.gamma);
    let ghost all_h = sq.map_values(|x: Real| u / (u + x));
    let ghost all_p = sq.map_values(|x: Real| x / ((u + x) * (u + x)));
    let mut w: Vec<Real> = Vec::new();
    let mut hs: Vec<Real> = Vec::new();
    let mut ps: Vec<Real> = Vec::new();
    let mut i: usize = 0;
    while i < rets.len()
        invariant
            i <= rets@.len(),
            u == s.gamma * s.gamma,
            sq == squared_deviations(rets@, s.x0),
            all_w == cauchy_weights(sq, s.gamma),
            all_h == sq.map_values(|x: Real| u / (u + x)),
            all_p == sq.map_values(|x: Real| x / ((u + x) * (u + x))),
            w@ =~= all_w.take(i as int),
            hs@ =~= all_h.take(i as int),
            ps@ =~= all_p.take(i as int),
        decreases rets@.len() - i,
    {
        let d = rets[i] - s.x0;
        let si = d * d;
        w.push(Real::whole(1) / (u + si));
        hs.push(u / (u + si));
        ps.push(si / ((u + si) * (u + si)));
        i += 1;
    }
    assert(w@ =~= all_w);
    assert(hs@ =~= all_h);
    assert(ps@ =~= all_p);
    let w_sum = sum(w.as_slice());
    let x0 = if w_sum > Real::ratio(1, 1_000_000_000_000_000) {
        dot(rets, w.as_slice()) / w_sum
    } else {
        s.x0
    };
    let h = sum(hs.as_slice()) - Real::count(rets.len()) / Real::whole(2);
    let hp = sum(ps.as_slice());
    let gamma = if hp.abs() > Real::ratio(1, 1_000_000_000_000_000) {
        (u - h / hp).max(tiny20()).sqrt()
    } else {
        s.gamma
    };
    let ll = cauchy_log_likelihood(rets, x0, gamma, math);
    if ll > s.best_ll {
        Alternation { x0, gamma, best_ll: ll, best_x0: x0, best_gamma: gamma }
    } else {
        Alternation {
            x0,
            gamma,
            best_ll: s.best_ll,
            best_x0: s.best_x0,
            best_gamma: s.best_gamma,
        }
    }
}

impl CauchyDist {
    /// Fits the distribution to observations; nothing with fewer than thirty.
    pub fn fit<M: Fn(Elementary) -> Real>(rets: &[Real], math: &M) -> (r: Result<
        Self,
        TooFewObservations,
    >)
        requires
            is_function(*math),
            rets@.len() >= 30 ==> all_numbers(rets@),
        ensures
            r == if rets@.len() < 30 {
                Err::<CauchyDist, TooFewObservations>(
                    TooFewObservations { have: rets@.len() as usize },
                )
            } else {
                Ok(cauchy_fitted(oracle(*math), rets@))
            },
    {
        let n: usize = rets.len();
        if n < 30 {
            return Err(TooFewObservations { have: n });
        }
        let ghost f = oracle(*math);
        let order = sorted(rets);
        let upper: usize = 3 * (n / 4) + 3 * (n % 4) / 4;
        assert(upper == (3 * n as int) / 4);
        let x0 = middle(&order);
        let gamma = ((order[upper] - order[n / 4]) / Real::whole(2)).max(
            Real::ratio(1, 10_000_000_000),
        );
        let mut s = Alternation {
            x0,
            gamma,
            best_ll: minus_infinity(),
            best_x0: x0,
            best_gamma: gamma,
        };
        let mut k: usize = 0;
        while k < 300
            invariant
                is_function(*math),
                k <= 300,
                s == alternation(oracle(*math), rets@, k as nat),
            decreases 300 - k,
        {
            s = step(rets, s, math);
            k += 1;
        }
        let ghost cdfs = cauchy_cdfs(f, rets@, s.best_x0, s.best_gamma);
        let mut theoretical: Vec<Real> = Vec::new();
        let mut i: usize = 0;
        while i < n
            invariant
                is_function(*math),
                f == oracle(*math),
                i <= n,
                n == rets@.len(),
                order@ == sorted_of(rets@),
                order@.len() == n,
                cdfs == cauchy_cdfs(f, rets@, s.best_x0, s.best_gamma),
                theoretical@ =~= cdfs.take(i as int),
            decreases n - i,
        {
            theoretical.push(cauchy_cdf(order[i], s.best_x0, s.best_gamma, math));
            i += 1;
        }
        assert(theoretical@ =~= cdfs);
        Ok(
            Self {
                x0: s.best_x0,
                gamma: s.best_gamma,
                log_likelihood: s.best_ll,
                ks_stat: ks_statistic(&theoretical),
            },
        )
    }

    pub open spec fn spec_aic(&self) -> Real {
        Real::whole(2) * Real::whole(2) - Real::whole(2) * self.log_likelihood
    }

    /// Akaike's criterion with two parameters.
    #[verifier::when_used_as_spec(spec_aic)]
    pub fn aic(&self) -> (r: Real)
        ensures
            r == self.spec_aic(),
    {
        Real::whole(2) * Real::whole(2) - Real::whole(2) * self.log_likelihood
    }

    /// The log density.
    pub fn log_pdf<M: Fn(Elementary) -> Real>(&self, x: Real, math: &M) -> (r: Real)
        requires
            is_function(*math),
        ensures
            r == cauchy_log_pdf_of(oracle(*math), x, self.x0, self.gamma),
    {
        cauchy_log_pdf(x, self.x0, self.gamma, math)
    }

    /// The distribution function.
    pub fn cdf<M: Fn(Elementary) -> Real>(&self, x: Real, math: &M) -> (r: Real)
        requires
            is_function(*math),
        ensures
            r == cauchy_cdf_of(oracle(*math), x, self.x0, self.gamma),
    {
        cauchy_cdf(x, self.x0, self.gamma, math)
    }

    /// The quantile of a probability.
    pub open spec fn quantile_of(&self, f: Oracle, p: Real) -> Real {
        self.x0 + self.gamma * f(Elementary::Tan(pi() * (p - Real::ratio(1, 2))))
    }

    /// The value at risk at confidence `alpha`.
    pub fn var<M: Fn(Elementary) -> Real>(&self, alpha: Real, math: &M) -> (r: Real)
        requires
            is_function(*math),
        ensures
            r == self.quantile_of(oracle(*math), Real::whole(1) - alpha),
    {
        let p = Real::whole(1) - alpha;
        self.x0 + self.gamma * ask(math, Elementary::Tan(pi() * (p - Real::ratio(1, 2))))
    }

    /// The expected shortfall down to the quantile of one in a thousand; the
    /// untruncated integral diverges.
    pub open spec fn cvar_of(&self, f: Oracle, alpha: Real) -> Real {
        let one = Real::whole(1);
        let p = one - alpha;
        let low = Real::ratio(1, 1000);
        let q = self.quantile_of(f, p);
        let zq = (q - self.x0) / self.gamma;
        let za = (self.quantile_of(f, low) - self.x0) / self.gamma;
        let integral = self.x0 * (p - low) + self.gamma / (Real::whole(2) * pi()) * (ln_of(
            f,
            one + zq * zq,
        ) - ln_of(f, one + za * za));
        if p < Real::ratio(1, 1_000_000_000_000_000) {
            q
        } else {
            integral / p
        }
    }

    /// The expected shortfall at confidence `alpha`, truncated at the quantile of
    /// one in a thousand.
    pub fn cvar<M: Fn(Elementary) -> Real>(&self, alpha: Real, math: &M) -> (r: Real)
        requires
            is_function(*math),
        ensures
            r == self.cvar_of(oracle(*math), alpha),
    {
        let one = Real::whole(1);
        let q = self.var(alpha, math);
        let p_var = one - alpha;
        let p_low = Real::ratio(1, 1000);
        let a = self.x0 + self.gamma * ask(
            math,
            Elementary::Tan(pi() * (p_low - Real::ratio(1, 2))),
        );
        let z_q = (q - self.x0) / self.gamma;
        let z_a = (a - self.x0) / self.gamma;
        let integral = self.x0 * (p_var - p_low) + self.gamma / (Real::whole(2) * pi()) * (ln(
            math,
            one + z_q * z_q,
        ) - ln(math, one + z_a * z_a));
        if p_var < Real::ratio(1, 1_000_000_000_000_000) {
            return q;
        }
        integral / p_var
    }
}

} // verus!
