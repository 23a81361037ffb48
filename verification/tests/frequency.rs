//! Frequency features.
use quant_trader::features::frequency::{FrequencyExtractor, FrequencyFeatures};
use quant_trader::num::elementary::Elementary;
use quant_trader::num::Real;

fn r(x: f64) -> Real {
    Real::from_bits(x.to_bits())
}

fn f(x: Real) -> f64 {
    f64::from_bits(x.bits)
}

fn native(e: Elementary) -> Real {
    match e {
        Elementary::Ln(x) => r(f(x).ln()),
        Elementary::Sin(x) => r(f(x).sin()),
        Elementary::Cos(x) => r(f(x).cos()),
        Elementary::Atan2(y, x) => r(f(y).atan2(f(x))),
        _ => panic!("not asked for"),
    }
}

#[test]
fn detects_dominant_period() {
    let mut ext = FrequencyExtractor::new(64);
    for i in 0..64u64 {
        let price = 100.0 + 2.0 * (2.0 * std::f64::consts::PI * i as f64 / 16.0).sin();
        ext.update(r(price), &native);
    }
    let feat = ext.latest(&native).unwrap();
    assert!(
        (f(feat.dominant_period) - 16.0).abs() <= 8.0,
        "dominant_period={}",
        f(feat.dominant_period)
    );
}

#[test]
fn white_noise_has_high_entropy() {
    let mut ext = FrequencyExtractor::new(64);
    for i in 0..64u64 {
        let price = 100.0
            + (i as f64 * 0.123).sin()
            + (i as f64 * 0.456).sin()
            + (i as f64 * 0.789).sin()
            + (i as f64 * 1.234).sin();
        ext.update(r(price), &native);
    }
    let feat = ext.latest(&native).unwrap();
    assert!(f(feat.spectral_entropy) > 0.5, "spectral_entropy={}", f(feat.spectral_entropy));
}

#[test]
fn trend_has_low_noise_ratio() {
    let mut ext = FrequencyExtractor::new(64);
    for i in 0..64u64 {
        ext.update(r(100.0 + 0.1 * i as f64), &native);
    }
    let feat = ext.latest(&native).unwrap();
    assert!(f(feat.noise_trend_ratio) < 1.0, "noise_trend_ratio={}", f(feat.noise_trend_ratio));
}

fn goertzel(signal: &[f64], period: usize) -> (f64, f64) {
    let n = signal.len();
    if period > n {
        return (0.0, 0.0);
    }
    let k = n as f64 / period as f64;
    let omega = 2.0 * std::f64::consts::PI * k / n as f64;
    let coeff = 2.0 * omega.cos();
    let (mut s1, mut s2) = (0.0f64, 0.0f64);
    for &x in signal {
        let s = x + coeff * s1 - s2;
        s2 = s1;
        s1 = s;
    }
    (s1 * omega.cos() - s2, s1 * omega.sin())
}

#[test]
fn features_are_exact() {
    let size = 80usize;
    let mut ext = FrequencyExtractor::new(size);
    let prices: Vec<f64> = (0..200)
        .map(|i| 10.0 + (i as f64 * 0.31).sin() + 0.02 * i as f64 + (i as f64 * 0.11).cos())
        .collect();
    for (i, &p) in prices.iter().enumerate() {
        let got = ext.update(r(p), &native);
        assert_eq!(got.is_some(), i + 1 >= size);
        let Some(got) = got else { continue };
        let w = &prices[i + 1 - size..i + 1];
        let mean = w.iter().sum::<f64>() / size as f64;
        let d: Vec<f64> = w.iter().map(|x| x - mean).collect();
        let c: Vec<(f64, f64)> = [4, 8, 16, 32, 64].iter().map(|&p| goertzel(&d, p)).collect();
        let pw: Vec<f64> = c.iter().map(|(a, b)| a * a + b * b).collect();
        let total = pw.iter().sum::<f64>().max(1e-20);
        let share: Vec<f64> = pw.iter().map(|x| x / total).collect();
        for k in 0..5 {
            assert_eq!(f(got.band_powers[k]), share[k]);
        }
        let best = (0..5).max_by(|&a, &b| share[a].partial_cmp(&share[b]).unwrap()).unwrap();
        assert_eq!(f(got.dominant_period), [4.0, 8.0, 16.0, 32.0, 64.0][best]);
        assert_eq!(f(got.dominant_phase), c[best].1.atan2(c[best].0));
        let h = share.iter().filter(|&&x| x > 1e-15).map(|&x| -x * x.ln()).sum::<f64>();
        assert_eq!(f(got.spectral_entropy), (h / (5.0f64).ln()).clamp(0.0, 1.0));
        let short: f64 = share[..2].iter().sum();
        let long: f64 = share[2..].iter().sum();
        assert_eq!(f(got.noise_trend_ratio), short / long.max(1e-15));
        assert_eq!(ext.latest(&native).unwrap().dominant_phase.bits, got.dominant_phase.bits);
    }
}

#[test]
fn default_features_are_uncertain() {
    let d = FrequencyFeatures::default();
    assert_eq!(f(d.spectral_entropy), 1.0);
    let (t, n) = d.regime_scores();
    assert_eq!((f(t), f(n)), (0.0, 1.0));
    let v: Vec<f64> = d.to_vec().into_iter().map(f).collect();
    assert_eq!(v, vec![0.0, 0.0, 0.0, 0.0, 0.0, 0.25, 1.0, 0.1, 0.0]);
    assert_eq!(FrequencyFeatures::n_features(), 9);
}

#[test]
fn coefficient_is_that_of_fourier() {
    use_coefficient(&[1.0, 0.0, -1.0, 0.0], 4, (2.0, 0.0));
    use_coefficient(&[1.0, 0.0, 0.0, 0.0], 4, (1.0, 0.0));
    use_coefficient(&[0.0, 1.0, 0.0, 0.0], 4, (0.0, -1.0));
    let x: Vec<f64> = (0..32).map(|i| (i as f64 * 0.7).sin() + 0.1 * i as f64).collect();
    let w = 2.0 * std::f64::consts::PI / 8.0;
    let re: f64 = x.iter().enumerate().map(|(i, v)| v * (w * i as f64).cos()).sum();
    let im: f64 = x.iter().enumerate().map(|(i, v)| -v * (w * i as f64).sin()).sum();
    use_coefficient(&x, 8, (re, im));
    let q: Vec<Real> = x.iter().map(|&v| r(v)).collect();
    let (a, b) = quant_trader::features::frequency::goertzel(&q, 32, 33, &native);
    assert_eq!((f(a), f(b)), (0.0, 0.0));
}

fn use_coefficient(x: &[f64], period: usize, want: (f64, f64)) {
    let q: Vec<Real> = x.iter().map(|&v| r(v)).collect();
    let (a, b) = quant_trader::features::frequency::goertzel(&q, q.len(), period, &native);
    assert!((f(a) - want.0).abs() < 1e-9 && (f(b) - want.1).abs() < 1e-9, "{} {}", f(a), f(b));
}
