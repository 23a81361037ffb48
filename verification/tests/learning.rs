//! Trees, boosting and the model ensemble.
use quant_trader::features::assembler::FeatureRow;
use quant_trader::ml::ensemble::{EnsembleOutput, ModelEnsemble, TrainError};
use quant_trader::ml::gradient_boost::{FitError, GbClassifier, GbRegressor};
use quant_trader::ml::tree::{build_tree, Node};
use quant_trader::num::elementary::Elementary;
use quant_trader::num::Real;

fn r(x: f64) -> Real {
    Real::from_bits(x.to_bits())
}

fn f(x: Real) -> f64 {
    f64::from_bits(x.bits)
}

fn native(e: Elementary) -> Real {
    match e {
        Elementary::Ln(x) => r(f(x).ln()),
        Elementary::Exp(x) => r(f(x).exp()),
        _ => panic!("not asked for"),
    }
}

/// A regression tree on machine numbers.
enum Tree {
    Leaf(f64),
    Split(usize, f64, Box<Tree>, Box<Tree>),
}

fn mean(v: &[f64]) -> f64 {
    if v.is_empty() {
        return 0.0;
    }
    v.iter().sum::<f64>() / v.len() as f64
}

fn sq(v: &[f64]) -> f64 {
    if v.is_empty() {
        return 0.0;
    }
    let m = mean(v);
    v.iter().map(|x| (x - m) * (x - m)).sum()
}

fn grow(xs: &[Vec<f64>], ys: &[f64], depth: usize, leaf: usize) -> Tree {
    if depth == 0 || xs.len() <= leaf {
        return Tree::Leaf(mean(ys));
    }
    let mut best = (f64::INFINITY, 0usize, 0.0f64);
    for k in 0..xs[0].len() {
        let mut v: Vec<f64> = xs.iter().map(|x| x[k]).collect();
        v.sort_by(|a, b| a.partial_cmp(b).unwrap());
        v.dedup();
        for i in 0..v.len().saturating_sub(1) {
            let t = (v[i] + v[i + 1]) / 2.0;
            let (l, g): (Vec<usize>, Vec<usize>) = (0..xs.len()).partition(|&j| xs[j][k] <= t);
            if l.len() < leaf || g.len() < leaf {
                continue;
            }
            let pick = |p: &[usize]| p.iter().map(|&j| ys[j]).collect::<Vec<f64>>();
            let loss = sq(&pick(&l)) + sq(&pick(&g));
            if loss < best.0 {
                best = (loss, k, t);
            }
        }
    }
    if best.0 == f64::INFINITY {
        return Tree::Leaf(mean(ys));
    }
    let (l, g): (Vec<usize>, Vec<usize>) =
        (0..xs.len()).partition(|&j| xs[j][best.1] <= best.2);
    let side = |p: &[usize]| {
        let x: Vec<Vec<f64>> = p.iter().map(|&j| xs[j].clone()).collect();
        let y: Vec<f64> = p.iter().map(|&j| ys[j]).collect();
        Box::new(grow(&x, &y, depth - 1, leaf))
    };
    Tree::Split(best.1, best.2, side(&l), side(&g))
}

fn value(t: &Tree, x: &[f64]) -> f64 {
    match t {
        Tree::Leaf(v) => *v,
        Tree::Split(k, c, l, g) => value(if x[*k] <= *c { l } else { g }, x),
    }
}

fn same_tree(a: &Node, b: &Tree) {
    match (a, b) {
        (Node::Leaf { value }, Tree::Leaf(v)) => assert_eq!(f(*value), *v),
        (Node::Split { feature_index, threshold, left, right }, Tree::Split(k, c, l, g)) => {
            assert_eq!(feature_index, k);
            assert_eq!(f(*threshold), *c);
            same_tree(left, l);
            same_tree(right, g);
        }
        _ => panic!("different shapes"),
    }
}

fn data(n: usize) -> (Vec<Vec<f64>>, Vec<f64>) {
    let xs: Vec<Vec<f64>> = (0..n)
        .map(|i| {
            let t = i as f64;
            vec![(t * 0.7).sin(), ((t * 1.3).cos() * 4.0).round(), t % 5.0]
        })
        .collect();
    let ys = xs.iter().map(|x| x[0] * 2.0 + x[1] * 0.5 - x[2]).collect();
    (xs, ys)
}

fn lift(xs: &[Vec<f64>]) -> Vec<Vec<Real>> {
    xs.iter().map(|v| v.iter().map(|&x| r(x)).collect()).collect()
}

#[test]
fn trees_are_exact() {
    let (xs, ys) = data(60);
    let y: Vec<Real> = ys.iter().map(|&v| r(v)).collect();
    for depth in 0..4 {
        let ours = build_tree(&lift(&xs), &y, depth, 5);
        let theirs = grow(&xs, &ys, depth, 5);
        same_tree(&ours, &theirs);
        for x in &xs {
            let q: Vec<Real> = x.iter().map(|&v| r(v)).collect();
            assert_eq!(f(ours.predict(&q)), value(&theirs, x));
        }
    }
    let flat = build_tree(&vec![vec![r(1.0)]; 10], &vec![r(2.0); 10], 3, 2);
    assert!(matches!(flat, Node::Leaf { .. }));
    assert!(matches!(build_tree(&vec![], &vec![], 3, 0), Node::Leaf { .. }));
}

#[test]
fn boosting_is_exact() {
    let (xs, ys) = data(50);
    let y: Vec<Real> = ys.iter().map(|&v| r(v)).collect();
    let mut model = GbRegressor::new(6, r(0.3), 2);
    assert!(!model.is_trained());
    assert!(model.fit(&lift(&xs), &y).is_ok());
    assert!(model.is_trained());
    let base = mean(&ys);
    let mut preds = vec![base; 50];
    let mut trees = Vec::new();
    for _ in 0..6 {
        let res: Vec<f64> = ys.iter().zip(&preds).map(|(a, b)| a - b).collect();
        let t = grow(&xs, &res, 2, 5);
        for (i, p) in preds.iter_mut().enumerate() {
            *p += 0.3 * value(&t, &xs[i]);
        }
        trees.push(t);
    }
    for x in &xs {
        let q: Vec<Real> = x.iter().map(|&v| r(v)).collect();
        let want = trees.iter().fold(base, |acc, t| acc + 0.3 * value(t, x));
        assert_eq!(f(model.predict(&q)), want);
    }
}

#[test]
fn fits_fail_on_bad_samples() {
    let (xs, _) = data(19);
    let mut m = GbRegressor::new(2, r(0.1), 2);
    assert_eq!(m.fit(&vec![], &vec![]), Err(FitError::LengthMismatch));
    assert_eq!(m.fit(&lift(&xs), &vec![r(1.0); 3]), Err(FitError::LengthMismatch));
    assert_eq!(m.fit(&lift(&xs), &vec![r(1.0); 19]), Err(FitError::TooFewSamples { have: 19 }));
    let mut c = GbClassifier::new(2, r(0.1), 2);
    assert_eq!(c.fit(&lift(&xs), &vec![1; 18]), Err(FitError::LengthMismatch));
    assert_eq!(c.fit(&lift(&xs), &vec![1; 19]), Err(FitError::TooFewSamples { have: 19 }));
    assert!(!c.is_trained());
}

#[test]
fn classifier_gives_probabilities() {
    let (xs, ys) = data(60);
    let labels: Vec<i8> =
        ys.iter().map(|&y| if y > 0.5 { 1 } else if y < -2.0 { -1 } else { 0 }).collect();
    let mut c = GbClassifier::new(5, r(0.3), 2);
    c.fit(&lift(&xs), &labels).unwrap();
    assert!(c.is_trained());
    let q: Vec<Real> = xs[3].iter().map(|&v| r(v)).collect();
    let (a, b, d) = (f(c.up.predict(&q)), f(c.flat.predict(&q)), f(c.down.predict(&q)));
    let top = a.max(b).max(d);
    let (ea, eb, ed) = ((a - top).exp(), (b - top).exp(), (d - top).exp());
    let s = ea + eb + ed;
    let (u, z, w) = c.predict_proba(&q, &native);
    assert_eq!((f(u), f(z), f(w)), (ea / s, eb / s, ed / s));
}

fn row(i: usize) -> FeatureRow {
    let t = i as f64;
    let z = r((t * 0.37).sin());
    FeatureRow {
        asset: "BTC".into(),
        timestamp_ms: i as u64,
        garch_vol: r((t * 0.11).cos()),
        kalman_level: r(100.0 + 3.0 * (t * 0.05).sin()),
        kalman_velocity: r((t * 0.21).sin() * 0.01),
        kalman_level_dev: z,
        spread_bps: z,
        depth_ofi: z,
        depth_ratio: z,
        price_impact: z,
        micro_price_dev: z,
        trade_imbalance: z,
        hawkes_cross_ratio: z,
        funding_z: z,
        funding_momentum: z,
        vol_ratio: z,
        premium_pct: z,
        beta_to_btc: z,
        idiosyncratic_ret: z,
        ou_z_score: z,
        corr_to_btc: z,
    }
}

#[test]
fn ensemble_trains_and_predicts() {
    let rows: Vec<FeatureRow> = (0..60).map(row).collect();
    let mut m = ModelEnsemble::new(3, r(0.2), 2);
    assert_eq!(
        m.train("BTC", &(0..19).map(row).collect(), 10, &native),
        Err(TrainError::TooFewRows { needed: 20, have: 19 })
    );
    assert!(!m.is_trained("BTC"));
    assert!(m.predict("BTC", &rows[0], &native).is_none());
    assert_eq!(m.train("BTC", &rows, 10, &native), Ok(()));
    assert!(m.is_trained("BTC"));
    assert!(!m.is_trained("ETH"));

    let xs: Vec<Vec<f64>> =
        rows[..50].iter().map(|q| q.to_feature_vec().into_iter().map(f).collect()).collect();
    let lv: Vec<f64> = rows.iter().map(|q| f(q.kalman_level)).collect();
    let vel: Vec<f64> = rows.iter().map(|q| f(q.kalman_velocity).abs()).collect();
    let labels: Vec<i8> = (0..50)
        .map(|i| {
            let ret = (lv[i + 10] / lv[i]).ln();
            if ret > 0.003 {
                1
            } else if ret < -0.003 {
                -1
            } else {
                0
            }
        })
        .collect();
    let vols: Vec<f64> = (0..50)
        .map(|i| {
            let v = &vel[i..i + 10];
            let mu = mean(v);
            let sd = (v.iter().map(|x| (x - mu) * (x - mu)).sum::<f64>() / 10.0).sqrt();
            (sd * 10.0f64.sqrt()).max(0.001)
        })
        .collect();
    let mut c = GbClassifier::new(3, r(0.2), 2);
    c.fit(&lift(&xs), &labels).unwrap();
    let mut g = GbRegressor::new(3, r(0.2), 2);
    g.fit(&lift(&xs), &vols.iter().map(|&v| r(v)).collect()).unwrap();
    let q = rows[55].to_feature_vec();
    let (u, z, d) = c.predict_proba(&q, &native);
    let o = m.predict("BTC", &rows[55], &native).unwrap();
    assert_eq!((o.p_up.bits, o.p_flat.bits, o.p_down.bits), (u.bits, z.bits, d.bits));
    assert_eq!(f(o.directional_edge), f(u) - f(d));
    assert_eq!(f(o.predicted_vol_4h), f(g.predict(&q)).max(0.001));
    let (u, z, d) = (f(u), f(z), f(d));
    let h = -(u * (u + 1e-10).ln() + z * (z + 1e-10).ln() + d * (d + 1e-10).ln());
    assert_eq!(f(o.signal_confidence), (1.0 - h / 3.0f64.ln()).max(0.0));
    assert_eq!(o.asset, "BTC");
}

fn output(edge: f64, conf: f64, vol: f64) -> EnsembleOutput {
    EnsembleOutput {
        asset: "A".into(),
        p_up: r(0.0),
        p_flat: r(0.0),
        p_down: r(0.0),
        directional_edge: r(edge),
        signal_confidence: r(conf),
        predicted_vol_4h: r(vol),
    }
}

#[test]
fn outputs_are_judged() {
    assert!(output(0.3, 0.7, 0.1).is_long_signal());
    assert!(!output(0.25, 0.7, 0.1).is_long_signal());
    assert!(!output(0.3, 0.6, 0.1).is_long_signal());
    assert!(output(-0.3, 0.7, 0.1).is_short_signal());
    assert!(!output(0.3, 0.7, 0.1).is_short_signal());
    assert_eq!(f(output(-0.3, 0.7, 0.0).score()), 0.3 * 0.7 / 0.001);
}

#[test]
fn ten_rows_beyond_the_horizon_are_enough() {
    let mut m = ModelEnsemble::new(2, r(0.2), 2);
    assert_eq!(m.train("BTC", &(0..20).map(row).collect(), 10, &native), Ok(()));
    assert!(m.is_trained("BTC"));
    assert!(m.predict("BTC", &row(3), &native).is_some());
}
