//! Choice among fitted return distributions by Akaike's criterion.
use vstd::prelude::*;

use crate::num::elementary::{is_function, oracle, Elementary, Oracle};
use crate::num::series::{all_numbers, stable_order, stable_order_of};
use crate::num::Real;
use crate::stats::cauchy::{cauchy_cdf_of, cauchy_fitted, cauchy_log_pdf_of, CauchyDist};
use crate::stats::common::TooFewObservations;
use crate::stats::discrete::{discrete_cdf_of, is_histogram, DiscreteDist};
use crate::stats::student::{t_cdf_of, t_fitted, t_log_pdf_of, StudentT};

verus! {

/// A fitted return distribution.
#[derive(Debug)]
pub enum ReturnDist {
    StudentT(StudentT),
    Cauchy(CauchyDist),
    Discrete(DiscreteDist),
}

/// The place of the least of three criteria, the first one of several: zero for
/// the t distribution, one for Cauchy, two for the histogram.
pub open spec fn least_of(a: Real, b: Real, c: Real) -> usize {
    stable_order_of(seq![a, b, c], 3)[0]
}

/// The distribution is the one with the least criterion of the three fits.
pub open spec fn is_best(d: ReturnDist, f: Oracle, rets: Seq<Real>) -> bool {
    exists|h: DiscreteDist|
        is_histogram(h, f, rets) && is_chosen(d, t_fitted(f, rets), cauchy_fitted(f, rets), h)
}

/// The distribution is the one with the least criterion of three.
pub open spec fn is_chosen(d: ReturnDist, t: StudentT, c: CauchyDist, h: DiscreteDist) -> bool {
    let k = least_of(t.aic(), c.aic(), h.aic());
    if k == 0 {
        d == ReturnDist::StudentT(t)
    } else if k == 1 {
        d == ReturnDist::Cauchy(c)
    } else {
        d == ReturnDist::Discrete(h)
    }
}

/// The chosen distribution has the least criterion, as far as they are numbers.
pub proof fn chosen_has_least_criterion(d: ReturnDist, t: StudentT, c: CauchyDist, h: DiscreteDist)
    requires
        is_chosen(d, t, c, h),
        !t.aic().nan(),
        !c.aic().nan(),
        !h.aic().nan(),
    ensures
        d.criterion() <= t.aic(),
        d.criterion() <= c.aic(),
        d.criterion() <= h.aic(),
{
    let keys = seq![t.aic(), c.aic(), h.aic()];
    assert(all_numbers(keys));
    crate::num::series::lemma_stable_order(keys, 3);
    let o = stable_order_of(keys, 3);
    assert(keys[0] == t.aic() && keys[1] == c.aic() && keys[2] == h.aic());
    assert(crate::num::series::precedes(keys, o[0], o[1]));
    assert(crate::num::series::precedes(keys, o[0], o[2]));
    assert(crate::num::series::precedes(keys, o[1], o[2]));
    assert(o[0] < 3 && o[1] < 3 && o[2] < 3);
}

/// Of three fits, the one with the least criterion.
pub fn choose_best(t: StudentT, c: CauchyDist, h: DiscreteDist) -> (r: ReturnDist)
    ensures
        is_chosen(r, t, c, h),
        h.wf() ==> r.wf(),
{
    let (a, b, e) = (t.aic(), c.aic(), h.aic());
    let keys = vec![a, b, e];
    assert(keys@ =~= seq![a, b, e]);
    let order = stable_order(keys.as_slice());
    match order[0] {
        0 => ReturnDist::StudentT(t),
        1 => ReturnDist::Cauchy(c),
        _ => ReturnDist::Discrete(h),
    }
}

impl ReturnDist {
    /// A histogram has matching parts.
    pub open spec fn wf(&self) -> bool {
        match self {
            ReturnDist::Discrete(d) => d.wf(),
            _ => true,
        }
    }

    /// Fits all three distributions and takes the one with the least criterion;
    /// nothing with fewer than thirty observations.
    pub fn fit_best<M: Fn(Elementary) -> Real>(rets: &[Real], math: &M) -> (r: Result<
        Self,
        TooFewObservations,
    >)
        requires
            is_function(*math),
            rets@.len() >= 30 ==> all_numbers(rets@),
        ensures
            rets@.len() < 30 ==> r == Err::<ReturnDist, TooFewObservations>(
                TooFewObservations { have: rets@.len() as usize },
            ),
            rets@.len() >= 30 ==> (r matches Ok(d) && d.wf() && is_best(d, oracle(*math), rets@)),
    {
        let t = match StudentT::fit(rets, math) {
            Ok(t) => t,
            Err(e) => {
                return Err(e);
            },
        };
        let c = match CauchyDist::fit(rets, math) {
            Ok(c) => c,
            Err(e) => {
                return Err(e);
            },
        };
        let h = match DiscreteDist::fit(rets, math) {
            Ok(h) => h,
            Err(e) => {
                return Err(e);
            },
        };
        Ok(choose_best(t, c, h))
    }

    pub fn name(&self) -> (r: &'static str)
        ensures
            r@ == match self {
                ReturnDist::StudentT(_) => "Student-t"@,
                ReturnDist::Cauchy(_) => "Cauchy"@,
                ReturnDist::Discrete(_) => "Discrete"@,
            },
    {
        match self {
            ReturnDist::StudentT(_) => "Student-t",
            ReturnDist::Cauchy(_) => "Cauchy",
            ReturnDist::Discrete(_) => "Discrete",
        }
    }

    /// The log density.
    pub fn log_pdf<M: Fn(Elementary) -> Real>(&self, x: Real, math: &M) -> (r: Real)
        requires
            self.wf(),
            is_function(*math),
        ensures
            r == match self {
                ReturnDist::StudentT(d) => t_log_pdf_of(oracle(*math), x, d.mu, d.sigma, d.nu),
                ReturnDist::Cauchy(d) => cauchy_log_pdf_of(oracle(*math), x, d.x0, d.gamma),
                ReturnDist::Discrete(d) => d.log_pdf_of(oracle(*math), x),
            },
    {
        match self {
            ReturnDist::StudentT(d) => d.log_pdf(x, math),
            ReturnDist::Cauchy(d) => d.log_pdf(x, math),
            ReturnDist::Discrete(d) => d.log_pdf(x, math),
        }
    }

    /// The distribution function.
    pub fn cdf<M: Fn(Elementary) -> Real>(&self, x: Real, math: &M) -> (r: Real)
        requires
            self.wf(),
            is_function(*math),
        ensures
            r == match self {
                ReturnDist::StudentT(d) => t_cdf_of(oracle(*math), (x - d.mu) / d.sigma, d.nu),
                ReturnDist::Cauchy(d) => cauchy_cdf_of(oracle(*math), x, d.x0, d.gamma),
                ReturnDist::Discrete(d) => discrete_cdf_of(d.edges@, d.probs@, d.bin_width, x),
            },
    {
        match self {
            ReturnDist::StudentT(d) => d.cdf(x, math),
            ReturnDist::Cauchy(d) => d.cdf(x, math),
            ReturnDist::Discrete(d) => d.cdf(x),
        }
    }

    /// The value at risk at confidence `alpha`.
    pub fn var<M: Fn(Elementary) -> Real>(&self, alpha: Real, math: &M) -> (r: Real)
        requires
            self.wf(),
            is_function(*math),
        ensures
            r == match self {
                ReturnDist::StudentT(d) => d.var_of(oracle(*math), alpha),
                ReturnDist::Cauchy(d) => d.quantile_of(oracle(*math), Real::whole(1) - alpha),
                ReturnDist::Discrete(d) => d.var_of(alpha),
            },
    {
        match self {
            ReturnDist::StudentT(d) => d.var(alpha, math),
            ReturnDist::Cauchy(d) => d.var(alpha, math),
            ReturnDist::Discrete(d) => d.var(alpha),
        }
    }

    /// The expected shortfall at confidence `alpha`.
    pub fn cvar<M: Fn(Elementary) -> Real>(&self, alpha: Real, math: &M) -> (r: Real)
        requires
            self.wf(),
            is_function(*math),
        ensures
            r == match self {
                ReturnDist::StudentT(d) => d.cvar_of(oracle(*math), alpha),
                ReturnDist::Cauchy(d) => d.cvar_of(oracle(*math), alpha),
                ReturnDist::Discrete(d) => d.cvar_of(alpha),
            },
    {
        match self {
            ReturnDist::StudentT(d) => d.cvar(alpha, math),
            ReturnDist::Cauchy(d) => d.cvar(alpha, math),
            ReturnDist::Discrete(d) => d.cvar(alpha),
        }
    }

    pub fn log_likelihood(&self) -> (r: Real)
        ensures
            r == match self {
                ReturnDist::StudentT(d) => d.log_likelihood,
                ReturnDist::Cauchy(d) => d.log_likelihood,
                ReturnDist::Discrete(d) => d.log_likelihood,
            },
    {
        match self {
            ReturnDist::StudentT(d) => d.log_likelihood,
            ReturnDist::Cauchy(d) => d.log_likelihood,
            ReturnDist::Discrete(d) => d.log_likelihood,
        }
    }

    pub fn ks_stat(&self) -> (r: Real)
        ensures
            r == match self {
                ReturnDist::StudentT(d) => d.ks_stat,
                ReturnDist::Cauchy(d) => d.ks_stat,
                ReturnDist::Discrete(d) => d.ks_stat,
            },
    {
        match self {
            ReturnDist::StudentT(d) => d.ks_stat,
            ReturnDist::Cauchy(d) => d.ks_stat,
            ReturnDist::Discrete(d) => d.ks_stat,
        }
    }

    /// Akaike's criterion.
    pub open spec fn criterion(&self) -> Real {
        match self {
            ReturnDist::StudentT(d) => d.aic(),
            ReturnDist::Cauchy(d) => d.aic(),
            ReturnDist::Discrete(d) => d.aic(),
        }
    }

    /// Akaike's criterion.
    pub fn aic(&self) -> (r: Real)
        ensures
            r == self.criterion(),
    {
        match self {
            ReturnDist::StudentT(d) => d.aic(),
            ReturnDist::Cauchy(d) => d.aic(),
            ReturnDist::Discrete(d) => d.aic(),
        }
    }
}

} // verus!
