//! Filters against nalgebra on machine numbers.
use nalgebra::{Matrix2, Matrix3, Vector2, Vector3};
use quant_trader::estimation::dual_kalman::DualKalmanFilter;
use quant_trader::estimation::{standard_normal_cdf, Observation, StateEstimator, StatePosterior};
use quant_trader::features::kalman::KalmanFilter;
use quant_trader::num::elementary::Elementary;
use quant_trader::num::linear::{Mat3, Vec3};
use quant_trader::num::Real;

fn r(x: f64) -> Real {
    Real::from_bits(x.to_bits())
}

fn f(x: Real) -> f64 {
    f64::from_bits(x.bits)
}

fn native(e: Elementary) -> Real {
    match e {
        Elementary::Exp(x) => r(f(x).exp()),
        Elementary::Ln(x) => r(f(x).ln()),
        _ => panic!("not asked for"),
    }
}

fn obs(price: f64, i: u64) -> Observation {
    Observation { price: r(price), volume: r(1.0), timestamp_ms: i * 5000 }
}

#[test]
fn dual_kf_tracks_mean_reverting_series() {
    let mut kf = DualKalmanFilter::default_crypto(&native);
    let mut rng_val = 100.0f64;
    for i in 0..200 {
        rng_val += 0.3 * (100.0 - rng_val) + 0.5 * ((i as f64 * 0.7).sin());
        kf.update(&obs(rng_val, i), &native).unwrap();
    }
    let p = kf.posterior(&native);
    assert!((f(p.level) - 100.0).abs() < 5.0, "level={}", f(p.level));
    assert!(f(p.kappa) > 0.0, "kappa={}", f(p.kappa));
}

#[test]
fn dual_kf_detects_trending_series() {
    let mut kf = DualKalmanFilter::default_crypto(&native);
    for i in 0..200 {
        let price = 100.0 + 0.05 * i as f64;
        kf.update(&obs(price, i), &native).unwrap();
    }
    let p = kf.posterior(&native);
    assert!(f(p.velocity) > 0.0, "velocity={}", f(p.velocity));
}

/// The dual filter on machine numbers, with its matrices from nalgebra.
struct Reference {
    x: Vector2<f64>,
    p: Matrix2<f64>,
    th: Vector3<f64>,
    pi: Matrix3<f64>,
    q: Matrix3<f64>,
    so: f64,
    mean: f64,
    ll: f64,
    init: bool,
}

impl Reference {
    fn new(so: f64, walk: f64) -> Self {
        let qp = walk * walk;
        Reference {
            x: Vector2::zeros(),
            p: Matrix2::identity(),
            th: Vector3::new(0.0, 0.05, (1e-3f64).ln()),
            pi: Matrix3::identity() * 0.1,
            q: Matrix3::from_diagonal(&Vector3::new(qp, qp, qp)),
            so,
            mean: 0.0,
            ll: 0.0,
            init: false,
        }
    }

    fn predict(&self, th: &Vector3<f64>) -> (Vector2<f64>, Matrix2<f64>) {
        let k = th[1].clamp(0.0, 0.98);
        let t = Matrix2::new(1.0 - k, 1.0, 0.0, 0.9);
        let sv = th[2].clamp(-12.0, -1.0).exp();
        let sv2 = sv * sv;
        let q = Matrix2::new(sv2, 0.0, 0.0, sv2 * 0.1);
        let u = Vector2::new(k * self.mean + th[0].clamp(-0.01, 0.01), 0.0);
        (t * self.x + u, t * self.p * t.transpose() + q)
    }

    fn update(&mut self, z: f64) {
        if !self.init {
            self.x = Vector2::new(z, 0.0);
            self.mean = z;
            self.init = true;
            return;
        }
        self.mean = (1.0 - 0.01) * self.mean + 0.01 * z;
        let th = self.th;
        let pi = self.pi + self.q;
        let (xp, pp) = self.predict(&th);
        let inn = z - xp[0];
        let s = pp[(0, 0)] + self.so * self.so;
        let k = Vector2::new(pp[(0, 0)] / s, pp[(1, 0)] / s);
        let ikh = Matrix2::new(1.0 - k[0], 0.0, -k[1], 1.0);
        let p_new = ikh * pp * ikh.transpose()
            + Matrix2::new(
                k[0] * k[0] * self.so * self.so,
                k[0] * k[1] * self.so * self.so,
                k[1] * k[0] * self.so * self.so,
                k[1] * k[1] * self.so * self.so,
            );
        self.ll = -0.5 * (inn * inn / s + s.ln() + (2.0 * std::f64::consts::PI).ln());
        let mut h = Vector3::zeros();
        for i in 0..3 {
            let (mut hi, mut lo) = (th, th);
            hi[i] += 1e-5;
            lo[i] -= 1e-5;
            h[i] = (self.predict(&hi).0[0] - self.predict(&lo).0[0]) / (2.0 * 1e-5);
        }
        let sp = h.dot(&(pi * h)) + s;
        let kp = pi * h / sp.max(1e-30);
        let th_new = th + kp * inn;
        let pi_new = (Matrix3::identity() - kp * h.transpose()) * pi;
        self.x = xp + k * inn;
        self.p = p_new;
        self.th = Vector3::new(
            th_new[0].clamp(-0.01, 0.01),
            th_new[1].clamp(0.001, 0.98),
            th_new[2].clamp(-12.0, -1.0),
        );
        self.pi = pi_new;
    }
}

#[test]
fn dual_filter_agrees_with_nalgebra() {
    let mut kf = DualKalmanFilter::default_crypto(&native);
    let mut re = Reference::new(1e-3, 1e-5);
    let mut price = 50.0f64;
    for i in 0..300u64 {
        price *= 1.0 + 0.002 * (i as f64 * 0.37).sin() + 0.0005 * (i as f64 * 1.9).cos();
        let p = kf.update(&obs(price, i), &native).unwrap();
        re.update(price);
        assert_eq!(f(p.level).to_bits(), re.x[0].to_bits(), "level at {}", i);
        assert_eq!(f(p.velocity).to_bits(), re.x[1].to_bits(), "velocity at {}", i);
        assert_eq!(f(p.drift), re.th[0]);
        assert_eq!(f(p.kappa), re.th[1]);
        assert_eq!(f(p.sigma), re.th[2].exp());
        assert_eq!(f(p.log_predictive), re.ll);
        assert_eq!(f(p.level_variance), re.p[(0, 0)].max(0.0));
    }
}

#[test]
fn parameters_stay_in_their_ranges() {
    let mut kf = DualKalmanFilter::new(r(1.0), r(0.5), &native);
    for i in 0..200u64 {
        let price = if i % 7 == 0 { 1000.0 } else { 1.0 + i as f64 };
        kf.update(&obs(price, i), &native).unwrap();
        let (a, b, c) = (f(kf.x_param.x), f(kf.x_param.y), f(kf.x_param.z));
        if i > 0 {
            assert!((-0.01..=0.01).contains(&a));
            assert!((0.001..=0.98).contains(&b));
            assert!((-12.0..=-1.0).contains(&c));
        }
    }
}

#[test]
fn reset_forgets_the_state() {
    let mut kf = DualKalmanFilter::default_crypto(&native);
    for i in 0..20u64 {
        kf.update(&obs(100.0 + i as f64, i), &native).unwrap();
    }
    let drift = kf.x_param.x.bits;
    kf.reset();
    let p = kf.posterior(&native);
    assert_eq!(f(p.level), 0.0);
    assert_eq!(f(p.level_variance), 1.0);
    assert_eq!(kf.x_param.x.bits, drift);
    let p = kf.update(&obs(7.0, 30), &native).unwrap();
    assert_eq!(f(p.level), 7.0);
    assert_eq!(f(p.velocity), 0.0);
}

#[test]
fn posterior_gives_probabilities() {
    let p = StatePosterior {
        level: r(0.01),
        velocity: r(0.002),
        drift: r(-0.001),
        kappa: r(0.1),
        sigma: r(0.02),
        log_predictive: r(0.0),
        level_variance: r(0.0001),
    };
    let mean = 0.01 + 0.002 + -0.001;
    let std = (0.0001f64 + 0.02 * 0.02).sqrt();
    assert_eq!(f(p.predictive_mean()), mean);
    assert_eq!(f(p.predictive_std()), std);
    let ret = 0.002 + -0.001;
    assert_eq!(f(p.expected_return()), ret);
    assert_eq!(p.p_up(&native).bits, standard_normal_cdf(r(ret / std), &native).bits);
    assert_eq!(p.p_down(&native).bits, standard_normal_cdf(r(-ret / std), &native).bits);
}

fn cdf(x: f64) -> f64 {
    let x = x / std::f64::consts::SQRT_2;
    let t = 1.0 / (1.0 + 0.3275911 * x.abs());
    let poly = t
        * (0.254_829_592
            + t * (-0.284_496_736 + t * (1.421_413_741 + t * (-1.453_152_027 + t * 1.061_405_429))));
    let e = 1.0 - poly * (-x * x).exp();
    0.5 * (1.0 + if x >= 0.0 { e } else { -e })
}

#[test]
fn normal_distribution_is_exact() {
    for i in -60..60 {
        let x = i as f64 / 13.0;
        assert_eq!(f(standard_normal_cdf(r(x), &native)), cdf(x));
    }
    assert!((f(standard_normal_cdf(r(1.96), &native)) - 0.975).abs() < 1e-4);
}

#[test]
fn level_filter_agrees_with_nalgebra() {
    let mut kf = KalmanFilter::default_crypto();
    let tr = Matrix2::new(1.0, 1.0, 0.0, 1.0);
    let h = Vector2::new(1.0, 0.0);
    let q = Matrix2::new(1e-4, 0.0, 0.0, 1e-7);
    let (mut x, mut p) = (Vector2::zeros(), Matrix2::identity() * 1.0);
    let mut prices = Vec::new();
    for i in 0..100 {
        let z = 20.0 + (i as f64 * 0.3).sin();
        prices.push(r(z));
        let xp = tr * x;
        let pp = tr * p * tr.transpose() + q;
        let y = z - h.dot(&xp);
        let s: f64 = h.dot(&(pp * h)) + 1e-3;
        let k = pp * h / s;
        x = xp + k * y;
        p = (Matrix2::identity() - k * h.transpose()) * pp;
        let (l, v) = kf.update(r(z));
        assert_eq!(f(l).to_bits(), x[0].to_bits());
        assert_eq!(f(v).to_bits(), x[1].to_bits());
        assert_eq!(kf.level().bits, l.bits);
        assert_eq!(kf.velocity().bits, v.bits);
    }
    let mut again = KalmanFilter::default_crypto();
    let (levels, velocities) = again.filter_series(&prices);
    assert_eq!(levels.len(), 100);
    assert_eq!(levels[99].bits, kf.level().bits);
    assert_eq!(velocities[99].bits, kf.velocity().bits);
}

#[test]
fn three_dimensional_products_agree_with_nalgebra() {
    let a = [1.1, -0.3, 2.7, 0.01, 5.5, -7.25, 3.3, 1e-3, 0.7];
    let m = Matrix3::from_row_slice(&a);
    let v = Vector3::new(0.3, -1.7, 2.2);
    let row = |i: usize| Vec3::new(r(a[3 * i]), r(a[3 * i + 1]), r(a[3 * i + 2]));
    let ours = Mat3 { r0: row(0), r1: row(1), r2: row(2) };
    let w = Vec3::new(r(0.3), r(-1.7), r(2.2));
    let mv = m * v;
    let got = ours.apply(w);
    assert_eq!([f(got.x), f(got.y), f(got.z)], [mv[0], mv[1], mv[2]]);
    let mm = m * m;
    let gg = ours.times(ours);
    assert_eq!([f(gg.r0.x), f(gg.r1.y), f(gg.r2.z)], [mm[(0, 0)], mm[(1, 1)], mm[(2, 2)]]);
    assert_eq!([f(gg.r0.z), f(gg.r2.x)], [mm[(0, 2)], mm[(2, 0)]]);
    assert_eq!(f(w.dot(w)), v.dot(&v));
}

#[test]
fn first_price_sets_the_level() {
    let mut kf = DualKalmanFilter::default_crypto(&native);
    let p = kf.update(&obs(123.5, 0), &native).unwrap();
    assert_eq!((f(p.level), f(p.velocity), f(p.log_predictive)), (123.5, 0.0, 0.0));
    for i in 1..100u64 {
        let p = kf.update(&obs(123.5 + (i as f64).sin(), i), &native).unwrap();
        assert!(f(p.level_variance) >= 0.0);
        assert!((-0.01..=0.01).contains(&f(p.drift)));
        assert!((0.001..=0.98).contains(&f(p.kappa)));
        assert!(f(p.sigma) >= (-12.0f64).exp() && f(p.sigma) <= (-1.0f64).exp());
        assert_eq!(f(p.level), f(kf.posterior(&native).level));
    }
}

#[test]
fn overflowing_prices_take_the_parameters_out_of_range() {
    let mut kf = DualKalmanFilter::default_crypto(&native);
    kf.update(&obs(1e308, 0), &native).unwrap();
    assert_eq!(f(kf.x_param.y), 0.05);
    kf.update(&obs(-1e308, 1), &native).unwrap();
    assert!(f(kf.x_param.y).is_nan());
}
