//! Volatility, spread and distribution models against plain implementations on
//! machine numbers.
use quant_trader::num::elementary::Elementary;
use quant_trader::num::Real;
use quant_trader::stats::cauchy::CauchyDist;
use quant_trader::stats::cointegration::{
    engle_granger, find_cointegrated_pairs, fit_ou, PairError,
};
use quant_trader::stats::common::TooFewObservations;
use quant_trader::stats::discrete::DiscreteDist;
use quant_trader::stats::distribution::ReturnDist;
use quant_trader::stats::garch::{Garch11, TooFewReturns};
use quant_trader::stats::student::StudentT;

const PI: f64 = std::f64::consts::PI;

fn r(x: f64) -> Real {
    Real::from_bits(x.to_bits())
}

fn f(x: Real) -> f64 {
    f64::from_bits(x.bits)
}

fn rs(v: &[f64]) -> Vec<Real> {
    v.iter().map(|&x| r(x)).collect()
}

fn lg(x: f64) -> f64 {
    statrs::function::gamma::ln_gamma(x)
}

fn native(e: Elementary) -> Real {
    match e {
        Elementary::Exp(x) => r(f(x).exp()),
        Elementary::Ln(x) => r(f(x).ln()),
        Elementary::Tan(x) => r(f(x).tan()),
        Elementary::Atan(x) => r(f(x).atan()),
        Elementary::Powf(x, y) => r(f(x).powf(f(y))),
        Elementary::LnGamma(x) => r(lg(f(x))),
        _ => panic!("not asked for"),
    }
}

fn same(a: Real, b: f64, what: &str) {
    assert!(f(a).to_bits() == b.to_bits() || (f(a).is_nan() && b.is_nan()), "{}: {} {}", what, f(a), b);
}

fn sample_returns(n: usize) -> Vec<f64> {
    (0..n)
        .map(|i| {
            let t = i as f64;
            0.01 * (t * 0.83).sin() + 0.004 * (t * 2.9).cos() * (1.0 + (t * 0.1).sin())
                + if i % 11 == 0 { 0.03 } else { 0.0 }
        })
        .collect()
}

fn mean(v: &[f64]) -> f64 {
    v.iter().sum::<f64>() / v.len() as f64
}

fn variances(v: &[f64], w: f64, a: f64, b: f64) -> Vec<f64> {
    let mut h = (w / (1.0 - a - b).max(1e-10)).max(1e-12);
    v.iter()
        .map(|&x| {
            let now = h;
            h = w + a * x * x + b * h;
            now
        })
        .collect()
}

fn garch_ll(v: &[f64], p: [f64; 4]) -> f64 {
    let [w, a, b, nu] = p;
    if w <= 0.0 || a <= 0.0 || b <= 0.0 || a + b >= 1.0 || nu <= 2.0 {
        return f64::NEG_INFINITY;
    }
    let c = lg((nu + 1.0) / 2.0) - lg(nu / 2.0) - 0.5 * (PI * (nu - 2.0)).ln();
    v.iter()
        .zip(&variances(v, w, a, b))
        .map(|(&x, &h)| {
            if h <= 0.0 {
                return f64::NEG_INFINITY;
            }
            c - 0.5 * h.ln() - (nu + 1.0) / 2.0 * (1.0 + x * x / (h * (nu - 2.0))).ln()
        })
        .sum()
}

#[test]
fn volatility_fit_is_exact() {
    let v = sample_returns(50);
    let m = mean(&v);
    let var = v.iter().map(|x| (x - m) * (x - m)).sum::<f64>() / 50.0;
    let mut p = [var * 0.05, 0.10, 0.85, 6.0];
    let (mut best_ll, mut best) = (f64::NEG_INFINITY, p);
    for _ in 0..5000 {
        let ll = garch_ll(&v, p);
        if ll > best_ll {
            best_ll = ll;
            best = p;
        }
        let g: Vec<f64> = (0..4)
            .map(|i| {
                let (mut hi, mut lo) = (p, p);
                hi[i] += 1e-7;
                lo[i] -= 1e-7;
                (garch_ll(&v, hi) - garch_ll(&v, lo)) / (2.0 * 1e-7)
            })
            .collect();
        p = [
            (p[0] + 1e-5 * g[0]).max(1e-12),
            (p[1] + 1e-5 * g[1]).clamp(0.01, 0.49),
            (p[2] + 1e-5 * g[2]).clamp(0.01, 0.98),
            (p[3] + 1e-5 * 100.0 * g[3]).max(2.1),
        ];
        if p[1] + p[2] >= 0.9999 {
            let s = 0.9999 / (p[1] + p[2]);
            p[1] *= s;
            p[2] *= s;
        }
    }
    let q = Garch11::fit(&rs(&v), &native).unwrap();
    same(q.omega, best[0], "omega");
    same(q.alpha, best[1], "alpha");
    same(q.beta, best[2], "beta");
    same(q.nu, best[3], "nu");
    same(q.log_likelihood, best_ll, "likelihood");
    assert!(best[1] + best[2] < 1.0);
    let h = variances(&v, best[0], best[1], best[2]);
    let ahead = best[0] + best[1] * (v[49] * v[49]) + best[2] * h[49];
    same(q.forecast_sigma(&rs(&v)), ahead.sqrt(), "ahead");
    let long = best[0] / (1.0 - best[1] - best[2]).max(1e-10);
    same(q.unconditional_var(), long, "long run");
    same(q.annual_vol(r(365.0)), (long * 365.0).sqrt(), "annual");
    same(q.forecast_sigma(&[]), (best[0] + best[1] * 0.0 + best[2] * long).sqrt(), "empty");
    let before: Vec<u64> = q.conditional_variances(&rs(&v)).iter().map(|x| x.bits).collect();
    assert_eq!(before.len(), 50);
    let mut other = v.clone();
    other[49] = 1.0;
    let after: Vec<u64> = q.conditional_variances(&rs(&other)).iter().map(|x| x.bits).collect();
    assert_eq!(before, after);
}

#[test]
fn volatility_needs_fifty_returns() {
    assert_eq!(Garch11::fit(&rs(&sample_returns(49)), &native).unwrap_err(), TooFewReturns { have: 49 });
}

fn ols(y: &[f64], x: &[f64]) -> (f64, f64) {
    let n = y.len() as f64;
    let sx: f64 = x.iter().sum();
    let sy: f64 = y.iter().sum();
    let sxx: f64 = x.iter().map(|a| a * a).sum();
    let sxy: f64 = x.iter().zip(y).map(|(a, b)| a * b).sum();
    let d = n * sxx - sx * sx;
    if d.abs() < 1e-12 {
        return (sy / n, 0.0);
    }
    let b = (n * sxy - sx * sy) / d;
    ((sy - b * sx) / n, b)
}

fn adf(s: &[f64]) -> f64 {
    let n = s.len();
    let ds: Vec<f64> = s.windows(2).map(|w| w[1] - w[0]).collect();
    let (_, b) = ols(&ds, &s[..n - 1]);
    let rss: f64 = ds.iter().zip(s).map(|(d, x)| d - b * x).map(|e| e * e).sum();
    let sxx: f64 = s[..n - 1].iter().map(|x| x * x).sum();
    b / (rss / (n - 2) as f64 / sxx).sqrt()
}

fn pair(n: usize) -> (Vec<f64>, Vec<f64>) {
    let x: Vec<f64> = (0..n).map(|i| 50.0 + i as f64 * 0.2 + (i as f64 * 0.3).sin()).collect();
    let y = x.iter().enumerate().map(|(i, v)| 3.0 + 1.5 * v + (i as f64 * 2.1).sin()).collect();
    (y, x)
}

#[test]
fn pair_test_is_exact() {
    let (y, x) = pair(60);
    let q = engle_granger("A", "B", &rs(&y), &rs(&x)).unwrap();
    let (a, b) = ols(&y, &x);
    let res: Vec<f64> = y.iter().zip(&x).map(|(v, w)| v - a - b * w).collect();
    same(q.alpha, a, "alpha");
    same(q.beta, b, "beta");
    same(q.adf_stat, adf(&res), "adf");
    assert_eq!(q.is_cointegrated, adf(&res) < -2.86);
    assert!(q.is_cointegrated);
    assert_eq!((q.asset1.as_str(), q.asset2.as_str()), ("A", "B"));
    let e = engle_granger("A", "B", &rs(&y[..29]), &rs(&x)).unwrap_err();
    assert_eq!(e, PairError::TooFewPrices);

    let ou = fit_ou(&q, &rs(&y), &rs(&x), &native).unwrap();
    let ds: Vec<f64> = res.windows(2).map(|w| w[1] - w[0]).collect();
    let lag = &res[..59];
    let (c, d) = ols(&ds, lag);
    let kappa = (-d).max(1e-8);
    same(ou.kappa, kappa, "kappa");
    same(ou.theta, c / kappa, "theta");
    let left: f64 = ds.iter().zip(lag).map(|(u, s)| u - c - d * s).map(|e| e * e).sum();
    let sigma = (left.sqrt() / 60.0f64.sqrt()).max(1e-10);
    same(ou.sigma, sigma, "sigma");
    same(ou.half_life, 2.0f64.ln() / kappa, "half-life");
    let z = (100.0 - a - b * 60.0 - c / kappa) / (sigma / (2.0 * kappa).sqrt()).max(1e-10);
    same(ou.z_score(r(100.0), r(60.0)), z, "z");
    assert_eq!(
        fit_ou(&q, &rs(&y[..9]), &rs(&x), &native).unwrap_err(),
        PairError::TooFewSpreads
    );
}

#[test]
fn pairs_are_tested_in_order() {
    let (y, x) = pair(40);
    let p = vec![
        ("A".to_string(), rs(&y)),
        ("B".to_string(), rs(&x[..39])),
        ("C".to_string(), rs(&x)),
        ("D".to_string(), rs(&y)),
    ];
    let found = find_cointegrated_pairs(&p);
    let names: Vec<(&str, &str)> =
        found.iter().map(|q| (q.asset1.as_str(), q.asset2.as_str())).collect();
    assert_eq!(names, vec![("A", "C"), ("A", "D"), ("C", "D")]);
}

fn digamma(x: f64) -> f64 {
    if x < 6.0 {
        return digamma(x + 1.0) - 1.0 / x;
    }
    let q = 1.0 / x;
    let q2 = q * q;
    x.ln() - 0.5 * q - q2 * (1.0 / 12.0 - q2 * (1.0 / 120.0 - q2 / 252.0))
}

fn trigamma(x: f64) -> f64 {
    if x < 6.0 {
        return trigamma(x + 1.0) + 1.0 / (x * x);
    }
    let q = 1.0 / x;
    q + 0.5 * q.powi(2) + q.powi(3) / 6.0 - q.powi(5) / 30.0
}

fn solve_nu(target: f64) -> f64 {
    let mut nu = 5.0f64;
    for _ in 0..50 {
        let g = digamma((nu + 1.0) / 2.0) - digamma(nu / 2.0) - target;
        let d = 0.5 * trigamma((nu + 1.0) / 2.0) - 0.5 * trigamma(nu / 2.0);
        if d.abs() < 1e-15 {
            break;
        }
        let s = g / d;
        nu = (nu - s).max(2.1);
        if s.abs() < 1e-8 {
            break;
        }
    }
    nu
}

fn beta_fraction(a: f64, b: f64, x: f64) -> f64 {
    let tiny = |v: f64| if v.abs() < f64::MIN_POSITIVE { f64::MIN_POSITIVE } else { v };
    let mut c = 1.0f64;
    let d0 = 1.0 - (a + b) * x / (a + 1.0);
    let mut d = if d0.abs() < f64::MIN_POSITIVE { f64::MIN_POSITIVE } else { 1.0 / d0 };
    let mut h = d;
    for m in 1..=200 {
        let m = m as f64;
        let aa = m * (b - m) * x / ((a + 2.0 * m - 1.0) * (a + 2.0 * m));
        d = 1.0 / tiny(1.0 + aa * d);
        c = tiny(1.0 + aa / c);
        h *= d * c;
        let aa = -(a + m) * (a + b + m) * x / ((a + 2.0 * m) * (a + 2.0 * m + 1.0));
        d = 1.0 / tiny(1.0 + aa * d);
        c = tiny(1.0 + aa / c);
        let del = d * c;
        h *= del;
        if (del - 1.0).abs() < 3.0e-7 {
            break;
        }
    }
    h
}

fn t_cdf(t: f64, nu: f64) -> f64 {
    let (a, b, x) = (nu / 2.0, 0.5, nu / (nu + t * t));
    let ib = if x <= 0.0 {
        0.0
    } else if x >= 1.0 {
        1.0
    } else {
        let l = lg(a + b) - lg(a) - lg(b);
        x.powf(a) * (1.0 - x).powf(b) * l.exp() / a * beta_fraction(a, b, x)
    };
    if t < 0.0 {
        0.5 * ib
    } else {
        1.0 - 0.5 * ib
    }
}

fn t_log_pdf(x: f64, mu: f64, s: f64, nu: f64) -> f64 {
    let z = (x - mu) / s;
    lg((nu + 1.0) / 2.0) - lg(nu / 2.0) - 0.5 * (PI * nu).ln() - s.ln()
        - (nu + 1.0) / 2.0 * (1.0 + z * z / nu).ln()
}

fn ks(v: &[f64], cdf: impl Fn(f64) -> f64) -> f64 {
    let mut s = v.to_vec();
    s.sort_by(|a, b| a.partial_cmp(b).unwrap());
    let n = v.len() as f64;
    s.iter()
        .enumerate()
        .map(|(i, &x)| ((i + 1) as f64 / n - cdf(x)).abs())
        .fold(0.0, f64::max)
}

#[test]
fn t_fit_is_exact() {
    let v = sample_returns(60);
    let n = 60.0;
    let mu = mean(&v);
    let mut s = (v.iter().map(|x| (x - mu) * (x - mu)).sum::<f64>() / n).sqrt().max(1e-10);
    let mut nu = 5.0f64;
    for _ in 0..200 {
        let w: Vec<f64> = v
            .iter()
            .map(|x| {
                let z = (x - mu) / s;
                (nu + 1.0) / (nu + z * z)
            })
            .collect();
        let s2 = v.iter().zip(&w).map(|(x, w)| w * ((x - mu) * (x - mu))).sum::<f64>() / n;
        s = s2.sqrt().max(1e-10);
        let rhs = 1.0
            + w.iter()
                .zip(&v)
                .map(|(w, x)| {
                    let z = (x - mu) / s;
                    let q = z * z * nu / (nu + z * z);
                    w - q.ln() - w * q
                })
                .sum::<f64>()
                / n;
        nu = solve_nu(rhs).max(2.1);
    }
    let q = StudentT::fit(&rs(&v), &native).unwrap();
    same(q.mu, mu, "mu");
    same(q.sigma, s, "sigma");
    same(q.nu, nu, "nu");
    let ll: f64 = v.iter().map(|&x| t_log_pdf(x, mu, s, nu)).sum();
    same(q.log_likelihood, ll, "likelihood");
    same(q.ks_stat, ks(&v, |x| t_cdf((x - mu) / s, nu)), "ks");
    same(q.aic(), 2.0 * 3.0 - 2.0 * ll, "aic");
    same(q.log_pdf(r(0.01), &native), t_log_pdf(0.01, mu, s, nu), "density");
    same(q.cdf(r(0.01), &native), t_cdf((0.01 - mu) / s, nu), "cdf");
    let (mut lo, mut hi) = (-50.0f64, 0.0f64);
    for _ in 0..120 {
        let m = (lo + hi) / 2.0;
        if t_cdf(m, nu) < 1.0 - 0.95 {
            lo = m;
        } else {
            hi = m;
        }
    }
    let var = mu + s * ((lo + hi) / 2.0);
    same(q.var(r(0.95), &native), var, "var");
    let z = (var - mu) / s;
    let lc = lg((nu + 1.0) / 2.0) - lg(nu / 2.0) - 0.5 * (PI * nu).ln();
    let pdf = lc.exp() * (1.0 + z * z / nu).powf(-(nu + 1.0) / 2.0);
    let cvar = mu + s * (-pdf * (nu + z * z) / ((nu - 1.0) * t_cdf(z, nu)));
    same(q.cvar(r(0.95), &native), cvar, "cvar");
    assert_eq!(StudentT::fit(&rs(&v[..29]), &native).unwrap_err(), TooFewObservations { have: 29 });
}

#[test]
fn cauchy_fit_is_exact() {
    for len in [61usize, 64] {
        let v = sample_returns(len);
        let n = len as f64;
        let mut sorted = v.clone();
        sorted.sort_by(|a, b| a.partial_cmp(b).unwrap());
        let mut x0 = if len % 2 == 0 {
            (sorted[len / 2 - 1] + sorted[len / 2]) / 2.0
        } else {
            sorted[len / 2]
        };
        let mut g = ((sorted[(3 * len) / 4] - sorted[len / 4]) / 2.0).max(1e-10);
        let log_pdf = |x: f64, x0: f64, g: f64| {
            let z = (x - x0) / g;
            -PI.ln() - g.ln() - (1.0 + z * z).ln()
        };
        let (mut best_ll, mut best) = (f64::NEG_INFINITY, (x0, g));
        for _ in 0..300 {
            let s: Vec<f64> = v.iter().map(|x| (x - x0) * (x - x0)).collect();
            let w: Vec<f64> = s.iter().map(|x| 1.0 / (g * g + x)).collect();
            let ws: f64 = w.iter().sum();
            if ws > 1e-15 {
                x0 = v.iter().zip(&w).map(|(x, w)| x * w).sum::<f64>() / ws;
            }
            let u = g * g;
            let h: f64 = s.iter().map(|x| u / (u + x)).sum::<f64>() - n / 2.0;
            let hp: f64 = s.iter().map(|x| x / ((u + x) * (u + x))).sum();
            if hp.abs() > 1e-15 {
                g = (u - h / hp).max(1e-20).sqrt();
            }
            let ll: f64 = v.iter().map(|&x| log_pdf(x, x0, g)).sum();
            if ll > best_ll {
                best_ll = ll;
                best = (x0, g);
            }
        }
        let (x0, g) = best;
        let q = CauchyDist::fit(&rs(&v), &native).unwrap();
        same(q.x0, x0, "x0");
        same(q.gamma, g, "gamma");
        same(q.log_likelihood, best_ll, "likelihood");
        let cdf = |x: f64| 0.5 + ((x - x0) / g).atan() / PI;
        same(q.ks_stat, ks(&v, cdf), "ks");
        same(q.aic(), 2.0 * 2.0 - 2.0 * best_ll, "aic");
        same(q.cdf(r(0.02), &native), cdf(0.02), "cdf");
        same(q.log_pdf(r(0.02), &native), log_pdf(0.02, x0, g), "density");
        let quantile = |p: f64| x0 + g * (PI * (p - 0.5)).tan();
        let p: f64 = 1.0 - 0.95;
        same(q.var(r(0.95), &native), quantile(p), "var");
        let (zq, za) = ((quantile(p) - x0) / g, (quantile(0.001) - x0) / g);
        let i = x0 * (p - 0.001)
            + g / (2.0 * PI) * ((1.0 + zq * zq).ln() - (1.0 + za * za).ln());
        same(q.cvar(r(0.95), &native), i / p, "cvar");
        same(q.cvar(r(1.0), &native), quantile(0.0), "no tail");
    }
    assert!(CauchyDist::fit(&rs(&sample_returns(10)), &native).is_err());
}

struct Histogram {
    edges: Vec<f64>,
    w: f64,
    probs: Vec<f64>,
    filled: usize,
}

fn histogram(v: &[f64]) -> Histogram {
    let n = v.len() as f64;
    let mu = mean(v);
    let s = (v.iter().map(|x| (x - mu) * (x - mu)).sum::<f64>() / n).sqrt().max(1e-10);
    let raw = 3.5 * s * n.powf(-1.0 / 3.0);
    let lo = v.iter().cloned().fold(f64::INFINITY, f64::min) - raw;
    let hi = v.iter().cloned().fold(f64::NEG_INFINITY, f64::max) + raw;
    let bins = (((hi - lo) / raw).ceil() as usize).clamp(5, 100);
    let w = (hi - lo) / bins as f64;
    let mut counts = vec![0usize; bins];
    for &x in v {
        counts[(((x - lo) / w) as usize).min(bins - 1)] += 1;
    }
    let total = n + 0.5 * bins as f64;
    Histogram {
        edges: (0..=bins).map(|i| lo + i as f64 * w).collect(),
        w,
        probs: counts.iter().map(|&c| (c as f64 + 0.5) / total).collect(),
        filled: counts.iter().filter(|&&c| c > 0).count(),
    }
}

impl Histogram {
    fn bin(&self, x: f64) -> usize {
        (((x - self.edges[0]) / self.w) as usize).min(self.probs.len() - 1)
    }

    fn cdf(&self, x: f64) -> f64 {
        if x <= self.edges[0] {
            return 0.0;
        }
        if x >= *self.edges.last().unwrap() {
            return 1.0;
        }
        let i = self.bin(x);
        let done: f64 = self.probs[..i].iter().sum();
        done + self.probs[i] * ((x - self.edges[i]) / self.w).clamp(0.0, 1.0)
    }

    fn var(&self, alpha: f64) -> f64 {
        let target = 1.0 - alpha;
        let mut seen = 0.0f64;
        for (i, &p) in self.probs.iter().enumerate() {
            if seen + p >= target {
                let q = if p > 1e-15 { (target - seen) / p } else { 0.5 };
                return self.edges[i] + q * self.w;
            }
            seen += p;
        }
        *self.edges.last().unwrap()
    }
}

#[test]
fn histogram_fit_is_exact() {
    for len in [40usize, 75] {
        let v = sample_returns(len);
        let h = histogram(&v);
        let q = DiscreteDist::fit(&rs(&v), &native).unwrap();
        assert_eq!(q.probs.len(), h.probs.len());
        for i in 0..h.probs.len() {
            same(q.probs[i], h.probs[i], "prob");
            same(q.edges[i + 1], h.edges[i + 1], "edge");
            same(q.densities[i], h.probs[i] / h.w, "density");
        }
        let mass: f64 = q.probs.iter().map(|&x| f(x)).sum();
        assert!((mass - 1.0).abs() < 1e-14);
        assert_eq!(q.n_free_params, h.filled - 1);
        let ll: f64 = v.iter().map(|&x| (h.probs[h.bin(x)] / h.w).ln()).sum();
        same(q.log_likelihood, ll, "likelihood");
        same(q.aic(), 2.0 * (h.filled - 1) as f64 - 2.0 * ll, "aic");
        same(q.ks_stat, ks(&v, |x| h.cdf(x)), "ks");
        for x in [-1.0, -0.01, 0.0, 0.013, 1.0] {
            same(q.cdf(r(x)), h.cdf(x), "cdf");
        }
        same(q.log_pdf(r(-1.0), &native), f64::NEG_INFINITY, "outside");
        same(q.log_pdf(r(0.0), &native), (h.probs[h.bin(0.0)] / h.w).ln(), "inside");
        for alpha in [0.5, 0.95, 0.99, -0.5] {
            let var = h.var(alpha);
            same(q.var(r(alpha)), var, "var");
            let (mut a, mut b) = (0.0f64, 0.0f64);
            for i in 0..h.probs.len() {
                let (l, u, p) = (h.edges[i], h.edges[i + 1], h.probs[i]);
                if u <= var {
                    a += p * (l + u) / 2.0;
                    b += p;
                } else if l < var {
                    let t = (var - l) / h.w;
                    a += p * t * (l + var) / 2.0;
                    b += p * t;
                }
            }
            same(q.cvar(r(alpha)), if b < 1e-15 { var } else { a / b }, "cvar");
        }
    }
    assert!(DiscreteDist::fit(&rs(&sample_returns(29)), &native).is_err());
}

#[test]
fn least_criterion_is_chosen() {
    let v = rs(&sample_returns(60));
    let d = ReturnDist::fit_best(&v, &native).unwrap();
    let a = StudentT::fit(&v, &native).unwrap().aic();
    let b = CauchyDist::fit(&v, &native).unwrap().aic();
    let c = DiscreteDist::fit(&v, &native).unwrap().aic();
    let least = f(a).min(f(b)).min(f(c));
    assert_eq!(f(d.aic()), least);
    let name = if f(a) == least {
        "Student-t"
    } else if f(b) == least {
        "Cauchy"
    } else {
        "Discrete"
    };
    assert_eq!(d.name(), name);
    assert!(ReturnDist::fit_best(&v[..29], &native).is_err());
    assert!(f(d.var(r(0.95), &native)) < f(d.var(r(0.5), &native)));
    assert!(f(d.cvar(r(0.95), &native)) <= f(d.var(r(0.95), &native)));
    assert!(f(d.cdf(r(0.0), &native)) > 0.0);
    assert!(!d.log_pdf(r(0.0), &native).is_nan());
    assert!(!d.log_likelihood().is_nan() && !d.ks_stat().is_nan());
}

#[test]
fn few_returns_are_refused_whatever_they_are() {
    let v = [f64::NAN; 29];
    assert_eq!(StudentT::fit(&rs(&v), &native).unwrap_err(), TooFewObservations { have: 29 });
    assert_eq!(CauchyDist::fit(&rs(&v), &native).unwrap_err(), TooFewObservations { have: 29 });
}

#[test]
fn last_return_does_not_change_the_variances() {
    let g = Garch11::fit(&rs(&sample_returns(120)), &native).unwrap();
    let a = sample_returns(60);
    let mut b = a.clone();
    b[59] = 0.5;
    let (x, y) = (g.conditional_variances(&rs(&a)), g.conditional_variances(&rs(&b)));
    assert_eq!(x.len(), 60);
    for i in 0..60 {
        assert_eq!(x[i].bits, y[i].bits);
    }
    b[58] = 0.5;
    assert!(g.conditional_variances(&rs(&b))[59].bits != x[59].bits);
}
