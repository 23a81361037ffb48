//! Signals and their fusion.
use quant_trader::ensemble::fusion::{
    frequency_signal, kalman_signal, orderbook_signal, BayesianFusion,
};
use quant_trader::ensemble::{EnsembleDistribution, SignalOutput};
use quant_trader::estimation::{standard_normal_cdf, StatePosterior};
use quant_trader::features::frequency::FrequencyFeatures;
use quant_trader::num::elementary::Elementary;
use quant_trader::num::Real;
use quant_trader::orderbook::hawkes::HawkesProcess;

fn r(x: f64) -> Real {
    Real::from_bits(x.to_bits())
}

fn f(x: Real) -> f64 {
    f64::from_bits(x.bits)
}

fn native(e: Elementary) -> Real {
    match e {
        Elementary::Exp(x) => r(f(x).exp()),
        Elementary::Ln(x) => r(f(x).ln()),
        _ => panic!("not asked for"),
    }
}

fn make_signal(source: &'static str, p_up: f64, p_down: f64, le: f64) -> SignalOutput {
    SignalOutput {
        source,
        p_up: r(p_up),
        p_down: r(p_down),
        predictive_mean: r(p_up - p_down),
        predictive_std: r(0.01),
        log_evidence: r(le),
    }
}

#[test]
fn fusion_averages_signals() {
    let mut fusion = BayesianFusion::new(2, r(0.99), r(0.0));
    fusion.register_source("a");
    fusion.register_source("b");

    let s1 = make_signal("a", 0.6, 0.2, -1.0);
    let s2 = make_signal("b", 0.4, 0.4, -2.0);

    let result = fusion.fuse(&[Some(s1), Some(s2)], &native).unwrap();
    assert!(f(result.p_up) > 0.4 && f(result.p_up) < 0.7);
}

#[test]
fn fusion_handles_missing_source() {
    let mut fusion = BayesianFusion::new(3, r(0.99), r(0.0));
    fusion.register_source("a");
    fusion.register_source("b");
    fusion.register_source("c");

    let s1 = make_signal("a", 0.7, 0.1, -0.5);
    let result = fusion.fuse(&[Some(s1), None, None], &native).unwrap();
    assert!((f(result.p_up) - 0.7).abs() < 0.01);
}

#[test]
fn better_evidence_gets_higher_weight() {
    let mut fusion = BayesianFusion::new(2, r(0.5), r(0.0));
    fusion.register_source("good");
    fusion.register_source("bad");

    for _ in 0..20 {
        let g = make_signal("good", 0.8, 0.1, -0.1);
        let b = make_signal("bad", 0.5, 0.4, -5.0);
        fusion.fuse(&[Some(g), Some(b)], &native);
    }
    let g = make_signal("good", 0.8, 0.1, -0.1);
    let b = make_signal("bad", 0.5, 0.4, -5.0);
    let result = fusion.fuse(&[Some(g), Some(b)], &native).unwrap();
    let w_good = f(result.weights[0].1);
    let w_bad = f(result.weights[1].1);
    assert!(w_good > w_bad, "good={} bad={}", w_good, w_bad);
}

fn confidence(up: f64, down: f64) -> f64 {
    let flat = (1.0 - up - down).clamp(0.0, 1.0);
    let (u, d, z) = (up.max(1e-10), down.max(1e-10), flat.max(1e-10));
    let h = -(u * u.ln() + d * d.ln() + z * z.ln());
    (1.0 - h / (3.0f64).ln()).clamp(0.0, 1.0)
}

#[test]
fn fusion_is_exact() {
    let mut fusion = BayesianFusion::new(3, r(0.9), r(0.05));
    fusion.register_source("a");
    fusion.register_source("b");
    let sig = [(0.6, 0.2, -1.0), (0.3, 0.4, -2.5)];
    let mut ema = [0.0f64; 3];
    for _ in 0..3 {
        let got = fusion
            .fuse(
                &[
                    Some(make_signal("a", sig[0].0, sig[0].1, sig[0].2)),
                    None,
                    Some(make_signal("c", sig[1].0, sig[1].1, sig[1].2)),
                ],
                &native,
            )
            .unwrap();
        ema[0] = 0.9 * ema[0] + (1.0 - 0.9) * sig[0].2;
        ema[2] = 0.9 * ema[2] + (1.0 - 0.9) * sig[1].2;
        let top = ema[0].max(ema[2]);
        let e = [(ema[0] - top).exp(), 0.0, (ema[2] - top).exp()];
        let s = e.iter().sum::<f64>();
        let rest = 1.0 - 0.05 * 2.0;
        let w = [0.05 + rest * (e[0] / s), 0.0, 0.05 + rest * (e[2] / s)];
        for i in 0..3 {
            assert_eq!(f(got.weights[i].1), w[i]);
        }
        assert_eq!(got.weights[0].0, "a");
        assert_eq!(got.weights[2].0, "unknown");
        let mu = [sig[0].0 - sig[0].1, sig[1].0 - sig[1].1];
        assert_eq!(f(got.p_up), w[0] * sig[0].0 + w[2] * sig[1].0);
        assert_eq!(f(got.p_down), w[0] * sig[0].1 + w[2] * sig[1].1);
        let mix = w[0] * mu[0] + w[2] * mu[1];
        assert_eq!(f(got.predictive_mean), mix);
        let var = [w[0] * (0.01 * 0.01 + (mu[0] - mix) * (mu[0] - mix)),
            w[2] * (0.01 * 0.01 + (mu[1] - mix) * (mu[1] - mix))]
        .iter()
        .sum::<f64>();
        assert_eq!(f(got.predictive_std), var.sqrt());
        let conf = w[0] * confidence(sig[0].0, sig[0].1) + w[2] * confidence(sig[1].0, sig[1].1);
        assert_eq!(f(got.confidence), conf);
    }
}

#[test]
fn no_signal_gives_no_distribution() {
    let mut fusion = BayesianFusion::default_three_source();
    assert!(fusion.fuse(&[None, None, None], &native).is_none());
    assert!(fusion.fuse(&[], &native).is_none());
    assert_eq!(f(fusion.min_weight), 0.05);
    let mut none = BayesianFusion::new(0, r(0.5), r(0.5));
    assert!(none.fuse(&[Some(make_signal("a", 0.5, 0.5, 0.0))], &native).is_none());
}

#[test]
fn floors_that_leave_nothing_give_equal_weights() {
    let mut fusion = BayesianFusion::new(2, r(0.5), r(0.9));
    assert_eq!(f(fusion.min_weight), 0.5);
    let got = fusion
        .fuse(
            &[Some(make_signal("a", 0.8, 0.1, 0.0)), Some(make_signal("b", 0.2, 0.1, -40.0))],
            &native,
        )
        .unwrap();
    assert_eq!(f(got.weights[0].1), 0.5);
    assert_eq!(f(got.weights[1].1), 0.5);
}

#[test]
fn sources_beyond_the_number_are_not_named() {
    let mut fusion = BayesianFusion::new(1, r(0.5), r(0.0));
    fusion.register_source("a");
    fusion.register_source("b");
    assert_eq!(fusion.sources, vec!["a"]);
}

#[test]
fn signal_has_edge_and_confidence() {
    let s = make_signal("a", 0.6, 0.3, 0.0);
    assert_eq!(f(s.p_flat()), 1.0 - 0.6 - 0.3);
    assert_eq!(f(s.directional_edge()), 0.6 - 0.3);
    assert_eq!(f(s.confidence(&native)), confidence(0.6, 0.3));
    let over = make_signal("a", 0.8, 0.4, 0.0);
    assert_eq!(f(over.p_flat()), 0.0);
}

fn dist(up: f64, down: f64, std: f64) -> EnsembleDistribution {
    EnsembleDistribution {
        p_up: r(up),
        p_down: r(down),
        predictive_mean: r(0.0),
        predictive_std: r(std),
        confidence: r(0.56),
        weights: vec![],
    }
}

#[test]
fn regimes_are_described() {
    assert_eq!(dist(0.9, 0.0, 0.03).regime_description(), "high_vol");
    assert_eq!(dist(0.6, 0.2, 0.01).regime_description(), "trending");
    assert_eq!(dist(0.42, 0.4, 0.01).regime_description(), "consolidating");
    assert_eq!(dist(0.5, 0.3, 0.01).regime_description(), "mixed");
    assert!(dist(0.5, 0.3, 0.01).is_confident());
    assert_eq!(f(dist(0.5, 0.3, 0.01).predictive_variance()), 0.01 * 0.01);
}

fn cdf(x: f64) -> f64 {
    f(standard_normal_cdf(r(x), &native))
}

#[test]
fn adapters_are_exact() {
    let p = StatePosterior {
        level: r(5.0),
        velocity: r(0.01),
        drift: r(0.0),
        kappa: r(0.1),
        sigma: r(0.02),
        log_predictive: r(-3.0),
        level_variance: r(0.0001),
    };
    let k = kalman_signal(&p, &native);
    let std = (0.0001f64 + 0.02 * 0.02).sqrt();
    assert_eq!(k.source, "dual_kalman");
    assert_eq!(f(k.p_up), cdf(0.01 / std));
    assert_eq!(f(k.p_down), cdf(-0.01 / std));
    assert_eq!(f(k.predictive_mean), 5.0 + 0.01 + 0.0);
    assert_eq!(f(k.log_evidence), -3.0);

    let mut q = FrequencyFeatures::default();
    q.spectral_entropy = r(0.3);
    q.noise_trend_ratio = r(0.5);
    let (t, n) = ((1.0 - 0.3) * (1.0f64 / 0.5).min(1.0), 0.3 * 0.5);
    let bias = t * -1.0 * t.sqrt();
    let s = 0.005 + n * 0.02;
    let fs = frequency_signal(&q, r(-4.0), &native);
    assert_eq!(fs.source, "frequency");
    assert_eq!(f(fs.p_up), cdf(bias / s).clamp(0.01, 0.99));
    assert_eq!(f(fs.p_down), cdf(-bias / s).clamp(0.01, 0.99));
    assert_eq!(f(fs.predictive_mean), bias * s);
    assert_eq!(f(fs.predictive_std), s);
    let le: f64 = -(0.3f64.ln()) * (1.0 - 0.3) - 1.0;
    assert_eq!(f(fs.log_evidence), le.clamp(-20.0, 0.0));

    let h = HawkesProcess {
        mu_buy: r(1.002),
        mu_sell: r(0.999),
        alpha_bb: r(0.3),
        alpha_ss: r(0.3),
        alpha_bs: r(0.2),
        alpha_sb: r(0.1),
        beta: r(1.0),
        log_likelihood: r(0.0),
    };
    let ofi: f64 = (1.002 - 0.999) / (1.002 + 0.999);
    let pen = (0.2f64 / 0.3 / 5.0).min(0.5);
    let s = 0.003 + pen * 0.015;
    let os = orderbook_signal(&h, &native);
    assert_eq!(os.source, "orderbook");
    assert_eq!(f(os.p_up), cdf(ofi / s * 0.5).clamp(0.01, 0.99));
    assert_eq!(f(os.p_down), cdf(-ofi / s * 0.5).clamp(0.01, 0.99));
    assert_eq!(f(os.predictive_mean), ofi * s);
    assert_eq!(f(os.log_evidence), (-0.5 * (1.0 - ofi.abs()) - pen).clamp(-20.0, 0.0));
}

#[test]
fn weights_keep_the_floor_and_sum_to_one() {
    let mut fusion = BayesianFusion::new(3, r(0.5), r(0.05));
    for s in ["a", "b", "c"] {
        fusion.register_source(s);
    }
    for _ in 0..30 {
        fusion.fuse(
            &[
                Some(make_signal("a", 0.8, 0.1, -0.1)),
                Some(make_signal("b", 0.5, 0.4, -5.0)),
                None,
            ],
            &native,
        );
    }
    let d = fusion
        .fuse(
            &[
                Some(make_signal("a", 0.8, 0.1, -0.1)),
                Some(make_signal("b", 0.5, 0.4, -5.0)),
                Some(make_signal("c", 0.4, 0.4, -2.0)),
            ],
            &native,
        )
        .unwrap();
    let w: Vec<f64> = d.weights.iter().map(|x| f(x.1)).collect();
    assert!((w.iter().sum::<f64>() - 1.0).abs() < 1e-14);
    assert!(w.iter().all(|&x| x >= 0.05));
    assert!(w[0] >= w[2] && w[2] >= w[1]);
    assert!(f(d.directional_edge()).abs() <= 1.0);
}

#[test]
fn without_forgetting_all_weights_are_equal() {
    let mut fusion = BayesianFusion::new(3, r(1.0), r(0.05));
    for i in 0..50 {
        let le = -(i as f64);
        let got = fusion
            .fuse(
                &[
                    Some(make_signal("a", 0.8, 0.1, le)),
                    None,
                    Some(make_signal("c", 0.5, 0.4, 3.0 * le)),
                ],
                &native,
            )
            .unwrap();
        let w: Vec<f64> = got.weights.iter().map(|x| f(x.1)).collect();
        assert!((w[0] - 0.5).abs() < 1e-12 && (w[2] - 0.5).abs() < 1e-12);
        assert_eq!((w[0], w[1]), (w[2], 0.0));
    }
}

#[test]
fn evidence_stays_bounded_over_many_signals() {
    let mut fusion = BayesianFusion::new(2, r(0.97), r(0.1));
    for i in 0..500 {
        let le = if i % 2 == 0 { -1e6 } else { 1e6 };
        let got = fusion
            .fuse(&[Some(make_signal("a", 0.8, 0.1, le)), Some(make_signal("b", 0.5, 0.4, -le))], &native)
            .unwrap();
        let w: Vec<f64> = got.weights.iter().map(|x| f(x.1)).collect();
        assert!((w[0] + w[1] - 1.0).abs() < 1e-12);
        assert!(w[0] >= 0.1 - 1e-12 && w[1] >= 0.1 - 1e-12);
    }
}

#[test]
fn negative_floor_is_no_floor() {
    let mut a = BayesianFusion::new(2, r(1.0), r(-3.0));
    assert_eq!(f(a.min_weight), 0.0);
    let got = a
        .fuse(
            &[Some(make_signal("a", 0.8, 0.1, -4.0)), Some(make_signal("b", 0.2, 0.1, -40.0))],
            &native,
        )
        .unwrap();
    assert_eq!((f(got.weights[0].1), f(got.weights[1].1)), (0.5, 0.5));
}
