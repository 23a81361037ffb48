//! Cointegration of price pairs and Ornstein-Uhlenbeck models of their spreads.
use vstd::prelude::*;
use vstd::slice::slice_subrange;

use crate::num::elementary::{is_function, ln, ln_of, oracle, Elementary, Oracle};
use crate::num::series::{dot, products, sum, sum_of_seq};
use crate::num::Real;

verus! {

/// Result of a cointegration test.
#[derive(Debug)]
pub struct CointegrationResult {
    pub asset1: String,
    pub asset2: String,
    /// Slope of the first price on the second.
    pub beta: Real,
    /// Intercept.
    pub alpha: Real,
    /// Dickey-Fuller statistic of the residuals.
    pub adf_stat: Real,
    /// The residuals are stationary at five percent.
    pub is_cointegrated: bool,
}

/// An Ornstein-Uhlenbeck process fitted to a spread.
#[derive(Debug)]
pub struct OuProcess {
    pub asset1: String,
    pub asset2: String,
    pub beta: Real,
    pub alpha_const: Real,
    /// Speed of mean reversion.
    pub kappa: Real,
    /// Mean in the long run.
    pub theta: Real,
    /// Diffusion.
    pub sigma: Real,
    /// Half-life of the mean reversion in bars.
    pub half_life: Real,
}

impl OuProcess {
    pub open spec fn spec_z_score(&self, price1: Real, price2: Real) -> Real {
        let spread = price1 - self.alpha_const - self.beta * price2;
        (spread - self.theta) / (self.sigma / (Real::whole(2) * self.kappa).sqrt()).max(
            Real::ratio(1, 10_000_000_000),
        )
    }

    /// The spread's distance from its mean in standard deviations.
    #[verifier::when_used_as_spec(spec_z_score)]
    pub fn z_score(&self, price1: Real, price2: Real) -> (r: Real)
        ensures
            r == self.spec_z_score(price1, price2),
    {
        let spread = price1 - self.alpha_const - self.beta * price2;
        (spread - self.theta) / (self.sigma / (Real::whole(2) * self.kappa).sqrt()).max(
            Real::ratio(1, 10_000_000_000),
        )
    }
}

/// Why a pair cannot be tested or fitted.
#[derive(Debug, Clone, Copy, PartialEq, Eq, Structural)]
pub enum PairError {
    /// There are fewer than thirty prices.
    TooFewPrices,
    /// There are fewer than ten spreads.
    TooFewSpreads,
}

/// Intercept and slope of the least squares line; the mean and zero where `x`
/// does not vary.
pub open spec fn line_of(y: Seq<Real>, x: Seq<Real>) -> (Real, Real) {
    let n = Real::count(y.len() as usize);
    let (sx, sy) = (sum_of_seq(x), sum_of_seq(y));
    let denom = n * sum_of_seq(products(x, x)) - sx * sx;
    let beta = (n * sum_of_seq(products(x, y)) - sx * sy) / denom;
    if denom.abs() < Real::ratio(1, 1_000_000_000_000) {
        (sy / n, Real::whole(0))
    } else {
        ((sy - beta * sx) / n, beta)
    }
}

fn ols(y: &[Real], x: &[Real]) -> (r: (Real, Real))
    ensures
        r == line_of(y@, x@),
{
    let n = Real::count(y.len());
    let sum_x = sum(x);
    let sum_y = sum(y);
    let sum_xx = dot(x, x);
    let sum_xy = dot(x, y);
    let denom = n * sum_xx - sum_x * sum_x;
    if denom.abs() < Real::ratio(1, 1_000_000_000_000) {
        return (sum_y / n, Real::whole(0));
    }
    let beta = (n * sum_xy - sum_x * sum_y) / denom;
    let alpha = (sum_y - beta * sum_x) / n;
    (alpha, beta)
}

/// What a line leaves of `y`, as far as both sequences reach.
pub open spec fn residuals_of(y: Seq<Real>, x: Seq<Real>, alpha: Real, beta: Real) -> Seq<Real> {
    Seq::new(
        if y.len() <= x.len() {
            y.len()
        } else {
            x.len()
        },
        |i: int| y[i] - alpha - beta * x[i],
    )
}

fn residuals(y: &[Real], x: &[Real], alpha: Real, beta: Real) -> (r: Vec<Real>)
    ensures
        r@ == residuals_of(y@, x@, alpha, beta),
{
    let mut out: Vec<Real> = Vec::new();
    let ghost goal = residuals_of(y@, x@, alpha, beta);
    let mut i: usize = 0;
    while i < y.len() && i < x.len()
        invariant
            i <= y@.len(),
            i <= x@.len(),
            goal == residuals_of(y@, x@, alpha, beta),
            out@ =~= goal.take(i as int),
        decreases y@.len() - i,
    {
        out.push(y[i] - alpha - beta * x[i]);
        i += 1;
    }
    assert(out@ =~= goal);
    out
}

/// The changes from each element to the next.
pub open spec fn changes_of(s: Seq<Real>) -> Seq<Real> {
    Seq::new(
        if s.len() == 0 {
            0
        } else {
            (s.len() - 1) as nat
        },
        |i: int| s[i + 1] - s[i],
    )
}

fn changes(s: &[Real]) -> (r: Vec<Real>)
    ensures
        r@ == changes_of(s@),
{
    let mut out: Vec<Real> = Vec::new();
    let mut i: usize = 1;
    while i < s.len()
        invariant
            1 <= i,
            i <= s@.len() || s@.len() == 0,
            s@.len() == 0 ==> i == 1,
            out@ =~= changes_of(s@).take(if s@.len() == 0 {
                0
            } else {
                i - 1
            }),
        decreases s@.len() - i,
    {
        out.push(s[i] - s[i - 1]);
        i += 1;
    }
    assert(out@ =~= changes_of(s@));
    out
}

/// What `b` times the level leaves of each change.
pub open spec fn unexplained(ds: Seq<Real>, lag: Seq<Real>, b: Real) -> Seq<Real> {
    Seq::new(ds.len(), |i: int| ds[i] - b * lag[i])
}

/// The squares of a sequence.
pub open spec fn squares_of(s: Seq<Real>) -> Seq<Real> {
    s.map_values(|x: Real| x * x)
}

/// The Dickey-Fuller statistic: the slope of changes on levels over its standard
/// error; zero for short or vanishing series.
pub open spec fn adf_of(s: Seq<Real>) -> Real {
    let n = s.len();
    let ds = changes_of(s);
    let lag = s.drop_last();
    let b = line_of(ds, lag).1;
    let rss = sum_of_seq(squares_of(unexplained(ds, lag, b)));
    let sxx = sum_of_seq(squares_of(lag));
    if n < 10 || sxx < Real::ratio(1, 1_000_000_000_000) {
        Real::whole(0)
    } else {
        b / (rss / Real::count((n - 2) as usize) / sxx).sqrt()
    }
}

fn sum_of_squares(v: &[Real]) -> (r: Real)
    ensures
        r == sum_of_seq(squares_of(v@)),
{
    let r = dot(v, v);
    assert(products(v@, v@) =~= squares_of(v@));
    r
}

fn adf_test(series: &[Real]) -> (r: Real)
    ensures
        r == adf_of(series@),
{
    let n: usize = series.len();
    if n < 10 {
        return Real::whole(0);
    }
    let ds = changes(series);
    let lag = slice_subrange(series, 0, n - 1);
    assert(lag@ =~= series@.drop_last());
    let (_, b) = ols(ds.as_slice(), lag);
    let ghost goal = unexplained(ds@, lag@, b);
    let mut rest: Vec<Real> = Vec::new();
    let mut i: usize = 0;
    while i < ds.len()
        invariant
            i <= ds@.len(),
            ds@.len() == lag@.len(),
            goal == unexplained(ds@, lag@, b),
            rest@ =~= goal.take(i as int),
        decreases ds@.len() - i,
    {
        rest.push(ds[i] - b * lag[i]);
        i += 1;
    }
    assert(rest@ =~= goal);
    let rss = sum_of_squares(rest.as_slice());
    let s_xx = sum_of_squares(lag);
    if s_xx < Real::ratio(1, 1_000_000_000_000) {
        return Real::whole(0);
    }
    let se = (rss / Real::count(n - 2) / s_xx).sqrt();
    b / se
}

/// The result is that of the test on two price series.
pub open spec fn is_test(
    r: CointegrationResult,
    asset1: Seq<char>,
    asset2: Seq<char>,
    p1: Seq<Real>,
    p2: Seq<Real>,
) -> bool {
    let (alpha, beta) = line_of(p1, p2);
    let adf = adf_of(residuals_of(p1, p2, alpha, beta));
    &&& r.asset1@ == asset1
    &&& r.asset2@ == asset2
    &&& r.beta == beta
    &&& r.alpha == alpha
    &&& r.adf_stat == adf
    &&& r.is_cointegrated == (adf < Real::ratio(286, 100).neg())
}

/// Engle and Granger's test: a least squares line, and a test of its residuals.
pub fn engle_granger(asset1: &str, asset2: &str, p1: &[Real], p2: &[Real]) -> (r: Result<
    CointegrationResult,
    PairError,
>)
    ensures
        p1@.len() < 30 ==> r == Err::<CointegrationResult, PairError>(PairError::TooFewPrices),
        p1@.len() >= 30 ==> (r matches Ok(c) && is_test(c, asset1@, asset2@, p1@, p2@)),
{
    if p1.len() < 30 {
        return Err(PairError::TooFewPrices);
    }
    let (alpha, beta) = ols(p1, p2);
    let rest = residuals(p1, p2, alpha, beta);
    let adf_stat = adf_test(rest.as_slice());
    Ok(
        CointegrationResult {
            asset1: asset1.to_owned(),
            asset2: asset2.to_owned(),
            beta,
            alpha,
            adf_stat,
            is_cointegrated: adf_stat < Real::ratio(286, 100).neg(),
        },
    )
}

/// Two series can be tested: equally long, with at least thirty prices.
pub open spec fn testable(prices: Seq<(String, Vec<Real>)>, i: int, j: int) -> bool {
    prices[i].1@.len() == prices[j].1@.len() && prices[i].1@.len() >= 30
}

/// The testable pairs of series `i` with the series `i + 1 .. n`, in order.
pub open spec fn partners(prices: Seq<(String, Vec<Real>)>, i: int, n: nat) -> Seq<(int, int)>
    decreases n,
{
    if n == 0 || n <= i + 1 {
        Seq::empty()
    } else {
        let before = partners(prices, i, (n - 1) as nat);
        if testable(prices, i, n - 1) {
            before.push((i, n - 1))
        } else {
            before
        }
    }
}

/// The testable pairs whose first series is among the first `n`, in order.
pub open spec fn testable_pairs(prices: Seq<(String, Vec<Real>)>, n: nat) -> Seq<(int, int)>
    decreases n,
{
    if n == 0 {
        Seq::empty()
    } else {
        testable_pairs(prices, (n - 1) as nat) + partners(prices, n - 1, prices.len())
    }
}

/// The results are those of the tests on the pairs.
pub open spec fn are_tests(
    r: Seq<CointegrationResult>,
    prices: Seq<(String, Vec<Real>)>,
    pairs: Seq<(int, int)>,
) -> bool {
    &&& r.len() == pairs.len()
    &&& forall|k: int|
        0 <= k < r.len() ==> is_test(
            #[trigger] r[k],
            prices[pairs[k].0].0@,
            prices[pairs[k].1].0@,
            prices[pairs[k].0].1@,
            prices[pairs[k].1].1@,
        )
}

/// Tests all pairs of equally long series for cointegration.
pub fn find_cointegrated_pairs(prices: &[(String, Vec<Real>)]) -> (r: Vec<CointegrationResult>)
    ensures
        are_tests(r@, prices@, testable_pairs(prices@, prices@.len())),
{
    let mut results: Vec<CointegrationResult> = Vec::new();
    let n: usize = prices.len();
    let mut i: usize = 0;
    while i < n
        invariant
            i <= n,
            n == prices@.len(),
            are_tests(results@, prices@, testable_pairs(prices@, i as nat)),
        decreases n - i,
    {
        let ghost before = testable_pairs(prices@, i as nat);
        let mut j: usize = i + 1;
        assert(before + partners(prices@, i as int, j as nat) =~= before);
        while j < n
            invariant
                i < j <= n,
                n == prices@.len(),
                before == testable_pairs(prices@, i as nat),
                are_tests(results@, prices@, before + partners(prices@, i as int, j as nat)),
            decreases n - j,
        {
            let ghost pairs = before + partners(prices@, i as int, j as nat);
            let ghost old_results = results@;
            let p1 = &prices[i].1;
            let p2 = &prices[j].1;
            if p1.len() == p2.len() && p1.len() >= 30 {
                match engle_granger(
                    prices[i].0.as_str(),
                    prices[j].0.as_str(),
                    p1.as_slice(),
                    p2.as_slice(),
                ) {
                    Ok(r) => {
                        results.push(r);
                    },
                    Err(_) => {},
                }
                proof {
                    let next = before + partners(prices@, i as int, (j + 1) as nat);
                    assert(next =~= pairs.push((i as int, j as int)));
                    assert forall|k: int| 0 <= k < results@.len() implies is_test(
                        #[trigger] results@[k],
                        prices@[next[k].0].0@,
                        prices@[next[k].1].0@,
                        prices@[next[k].0].1@,
                        prices@[next[k].1].1@,
                    ) by {
                        if k < old_results.len() {
                            assert(results@[k] == old_results[k]);
                            assert(next[k] == pairs[k]);
                        }
                    }
                }
            }
            j += 1;
        }
        i += 1;
    }
    results
}

/// The process is that fitted to the spread of a pair.
pub open spec fn is_process(
    r: OuProcess,
    f: Oracle,
    coint: CointegrationResult,
    p1: Seq<Real>,
    p2: Seq<Real>,
) -> bool {
    let spreads = residuals_of(p1, p2, coint.alpha, coint.beta);
    let lag = spreads.drop_last();
    let ds = changes_of(spreads);
    let (a, b) = line_of(ds, lag);
    let kappa = b.neg().max(Real::ratio(1, 100_000_000));
    let rest = residuals_of(ds, lag, a, b);
    &&& r.asset1@ == coint.asset1@
    &&& r.asset2@ == coint.asset2@
    &&& r.beta == coint.beta
    &&& r.alpha_const == coint.alpha
    &&& r.kappa == kappa
    &&& r.theta == a / kappa
    &&& r.sigma == (sum_of_seq(squares_of(rest)).sqrt() / Real::count(
        spreads.len() as usize,
    ).sqrt()).max(Real::ratio(1, 10_000_000_000))
    &&& r.half_life == ln_of(f, Real::whole(2)) / kappa
}

/// Fits an Ornstein-Uhlenbeck process to the spread of a pair, by least squares of
/// its changes on its levels.
pub fn fit_ou<M: Fn(Elementary) -> Real>(
    coint: &CointegrationResult,
    p1: &[Real],
    p2: &[Real],
    math: &M,
) -> (r: Result<OuProcess, PairError>)
    requires
        is_function(*math),
    ensures
        p1@.len() < 10 || p2@.len() < 10 ==> r == Err::<OuProcess, PairError>(
            PairError::TooFewSpreads,
        ),
        p1@.len() >= 10 && p2@.len() >= 10 ==> (r matches Ok(ou) && is_process(
            ou,
            oracle(*math),
            *coint,
            p1@,
            p2@,
        )),
{
    let spreads = residuals(p1, p2, coint.alpha, coint.beta);
    let n: usize = spreads.len();
    if n < 10 {
        return Err(PairError::TooFewSpreads);
    }
    let s_lag = slice_subrange(spreads.as_slice(), 0, n - 1);
    assert(s_lag@ =~= spreads@.drop_last());
    let ds = changes(spreads.as_slice());
    let (a, b) = ols(ds.as_slice(), s_lag);
    let kappa = b.neg().max(Real::ratio(1, 100_000_000));
    let theta = a / kappa;
    let rest = residuals(ds.as_slice(), s_lag, a, b);
    let sigma = sum_of_squares(rest.as_slice()).sqrt() / Real::count(n).sqrt();
    let half_life = ln(math, Real::whole(2)) / kappa;
    Ok(
        OuProcess {
            asset1: coint.asset1.clone(),
            asset2: coint.asset2.clone(),
            beta: coint.beta,
            alpha_const: coint.alpha,
            kappa,
            theta,
            sigma: sigma.max(Real::ratio(1, 10_000_000_000)),
            half_life,
        },
    )
}

} // verus!
