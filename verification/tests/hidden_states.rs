//! Hidden Markov model against a plain implementation on machine numbers.
use quant_trader::hmm::training::TooFewObservations;
use quant_trader::hmm::{HmmModel, Regime, RegimeState};
use quant_trader::num::elementary::Elementary;
use quant_trader::num::Real;

fn r(x: f64) -> Real {
    Real::from_bits(x.to_bits())
}

fn f(x: Real) -> f64 {
    f64::from_bits(x.bits)
}

fn native(e: Elementary) -> Real {
    match e {
        Elementary::Ln(x) => r(f(x).ln()),
        Elementary::Exp(x) => r(f(x).exp()),
        _ => panic!("not asked for"),
    }
}

#[test]
fn regimes_have_parameters() {
    let all: Vec<Regime> = (0..5).map(Regime::from_index).collect();
    assert_eq!(
        all,
        vec![
            Regime::TrendingBull,
            Regime::TrendingBear,
            Regime::Consolidation,
            Regime::HighVol,
            Regime::HighVol
        ]
    );
    let labels: Vec<&str> = all.iter().map(|x| x.label()).collect();
    assert_eq!(labels[..4], ["Trending Bull", "Trending Bear", "Consolidation", "High-Vol Chaos"]);
    let lev: Vec<f64> = all.iter().map(|x| f(x.max_leverage())).collect();
    assert_eq!(lev[..4], [5.0, 5.0, 2.0, 1.0]);
    let scale: Vec<f64> = all.iter().map(|x| f(x.size_scale())).collect();
    assert_eq!(scale[..4], [1.0, 1.0, 0.5, 0.2]);
    let rr: Vec<f64> = all.iter().map(|x| f(x.min_rr())).collect();
    assert_eq!(rr[..4], [2.0, 2.0, 1.5, 3.0]);
    let s = RegimeState { regime: Regime::HighVol, probability: r(0.66), posterior: vec![] };
    assert!(s.is_confident());
}

type M = Vec<Vec<f64>>;

struct Plain {
    pi: Vec<f64>,
    a: M,
    mu: M,
    var: M,
}

fn prior() -> Plain {
    Plain {
        pi: vec![0.25; 4],
        a: vec![
            vec![0.92, 0.04, 0.03, 0.01],
            vec![0.05, 0.89, 0.03, 0.03],
            vec![0.06, 0.04, 0.87, 0.03],
            vec![0.15, 0.15, 0.08, 0.62],
        ],
        mu: vec![
            vec![0.35, 0.30, 0.012, 0.80, 0.70, -0.5, 0.60],
            vec![-0.35, -0.30, 0.018, 0.75, 0.60, 0.5, 0.50],
            vec![0.05, 0.05, 0.006, 0.60, 0.30, 0.0, 0.30],
            vec![0.0, 0.0, 0.035, 0.40, 0.20, 1.0, 0.20],
        ],
        var: vec![
            vec![0.04, 0.04, 0.0001, 0.02, 0.02, 0.25, 0.02],
            vec![0.04, 0.04, 0.0002, 0.02, 0.02, 0.25, 0.02],
            vec![0.01, 0.01, 0.00005, 0.04, 0.01, 0.10, 0.01],
            vec![0.10, 0.10, 0.0010, 0.06, 0.01, 0.50, 0.01],
        ],
    }
}

impl Plain {
    fn log_em(&self, s: usize, o: &[f64]) -> f64 {
        let mut p = 0.0f64;
        for k in 0..7usize.min(o.len()) {
            let v = self.var[s][k];
            let d = o[k] - self.mu[s][k];
            p += -0.5 * (d * d / v + v.ln() + std::f64::consts::TAU.ln());
        }
        p
    }

    fn em(&self, s: usize, o: &[f64]) -> f64 {
        self.log_em(s, o).exp().max(1e-300)
    }

    fn forward(&self, o: &[Vec<f64>]) -> (M, f64) {
        let mut al: M = Vec::new();
        let mut ll = 0.0f64;
        for t in 0..o.len() {
            let raw: Vec<f64> = (0..4)
                .map(|j| {
                    if t == 0 {
                        self.pi[j] * self.em(j, &o[0])
                    } else {
                        (0..4).map(|i| al[t - 1][i] * self.a[i][j]).sum::<f64>() * self.em(j, &o[t])
                    }
                })
                .collect();
            let s = raw.iter().sum::<f64>().max(1e-300);
            al.push(raw.iter().map(|x| x / s).collect());
            ll += s.ln();
        }
        (al, ll)
    }

    fn backward(&self, o: &[Vec<f64>]) -> M {
        let n = o.len();
        let mut be = vec![vec![1.0f64; 4]; n];
        for t in (0..n - 1).rev() {
            for i in 0..4 {
                be[t][i] = (0..4)
                    .map(|j| self.a[i][j] * self.em(j, &o[t + 1]) * be[t + 1][j])
                    .sum::<f64>();
            }
            let s = be[t].iter().sum::<f64>().max(1e-300);
            for b in be[t].iter_mut() {
                *b /= s;
            }
        }
        be
    }

    fn fit(&mut self, o: &[Vec<f64>]) {
        let n = o.len();
        let mut prev = f64::NEG_INFINITY;
        for _ in 0..200 {
            let (al, ll) = self.forward(o);
            if (ll - prev).abs() < 1e-6 {
                break;
            }
            prev = ll;
            let be = self.backward(o);
            let gamma: M = al
                .iter()
                .zip(&be)
                .map(|(a, b)| {
                    let raw: Vec<f64> = a.iter().zip(b).map(|(x, y)| x * y).collect();
                    let s = raw.iter().sum::<f64>().max(1e-300);
                    raw.iter().map(|x| x / s).collect()
                })
                .collect();
            let mut xi: Vec<nalgebra::DMatrix<f64>> = Vec::new();
            for t in 0..n - 1 {
                let mut m = nalgebra::DMatrix::zeros(4, 4);
                for i in 0..4 {
                    for j in 0..4 {
                        m[(i, j)] =
                            al[t][i] * self.a[i][j] * self.em(j, &o[t + 1]) * be[t + 1][j];
                    }
                }
                let s = m.sum().max(1e-300);
                xi.push(m / s);
            }
            self.pi = gamma[0].clone();
            for i in 0..4 {
                let row: f64 = (0..n - 1).map(|t| xi[t].row(i).sum()).sum::<f64>();
                for j in 0..4 {
                    let num: f64 = (0..n - 1).map(|t| xi[t][(i, j)]).sum();
                    self.a[i][j] = num / row.max(1e-300);
                }
                let all: f64 = (0..4).map(|j| self.a[i][j]).sum();
                for j in 0..4 {
                    self.a[i][j] /= all.max(1e-300);
                }
            }
            for i in 0..4 {
                let g = gamma.iter().map(|x| x[i]).sum::<f64>().max(1e-300);
                for k in 0..7 {
                    let mu = gamma.iter().zip(o).map(|(x, y)| x[i] * y[k]).sum::<f64>() / g;
                    let v = gamma
                        .iter()
                        .zip(o)
                        .map(|(x, y)| x[i] * ((y[k] - mu) * (y[k] - mu)))
                        .sum::<f64>()
                        / g;
                    self.mu[i][k] = mu;
                    self.var[i][k] = v.max(1e-10);
                }
            }
        }
    }

    fn viterbi(&self, o: &[Vec<f64>]) -> Vec<usize> {
        let n = o.len();
        let mut v = vec![vec![0.0f64; 4]; n];
        let mut back = vec![vec![0usize; 4]; n];
        for i in 0..4 {
            v[0][i] = self.pi[i].ln() + self.log_em(i, &o[0]);
        }
        for t in 1..n {
            for j in 0..4 {
                let (b, x) = (0..4)
                    .map(|i| (i, v[t - 1][i] + self.a[i][j].ln()))
                    .max_by(|a, b| a.1.partial_cmp(&b.1).unwrap())
                    .unwrap();
                v[t][j] = x + self.log_em(j, &o[t]);
                back[t][j] = b;
            }
        }
        let mut path = vec![0usize; n];
        path[n - 1] = (0..4).max_by(|&a, &b| v[n - 1][a].partial_cmp(&v[n - 1][b]).unwrap()).unwrap();
        for t in (0..n - 1).rev() {
            path[t] = back[t + 1][path[t + 1]];
        }
        path
    }
}

fn observations(n: usize) -> Vec<Vec<f64>> {
    (0..n)
        .map(|i| {
            let t = i as f64;
            let up = (t * 0.2).sin();
            vec![
                0.35 * up,
                0.3 * up + 0.02 * (t * 1.7).cos(),
                0.012 + 0.005 * (t * 0.9).sin(),
                0.7 + 0.1 * (t * 0.5).cos(),
                0.5 + 0.2 * up,
                -0.4 * up,
                0.4 + 0.1 * (t * 0.3).sin(),
            ]
        })
        .collect()
}

fn lift(o: &[Vec<f64>]) -> Vec<Vec<Real>> {
    o.iter().map(|v| v.iter().map(|&x| r(x)).collect()).collect()
}

#[test]
fn forward_pass_is_exact() {
    let o = observations(25);
    let (al, ll) = prior().forward(&o);
    let m = HmmModel::new(7);
    let (ours, q) = m.forward(&lift(&o), &native);
    assert_eq!(f(q), ll);
    for t in 0..25 {
        for i in 0..4 {
            assert_eq!(f(ours[t][i]), al[t][i]);
        }
    }
    let s = m.filter_last(&lift(&o), &native);
    let total = al[24].iter().sum::<f64>();
    let post: Vec<f64> = al[24].iter().map(|x| x / total).collect();
    let best = (0..4).max_by(|&a, &b| post[a].partial_cmp(&post[b]).unwrap()).unwrap();
    assert_eq!(s.regime, Regime::from_index(best));
    assert_eq!(f(s.probability), post[best]);
    assert_eq!(s.posterior.iter().map(|&x| f(x)).collect::<Vec<f64>>(), post);
}

#[test]
fn training_is_exact() {
    let o = observations(30);
    let mut plain = prior();
    plain.fit(&o);
    let mut m = HmmModel::new(7);
    assert!(m.fit(&lift(&o), &native).is_ok());
    for i in 0..4 {
        assert_eq!(f(m.pi[i]), plain.pi[i]);
        for j in 0..4 {
            assert_eq!(f(m.transition[i][j]), plain.a[i][j]);
        }
        for k in 0..7 {
            assert_eq!(f(m.means[i][k]), plain.mu[i][k]);
            assert_eq!(f(m.covariances[i][k]), plain.var[i][k]);
        }
    }
    let got = m.viterbi(&lift(&o), &native);
    assert_eq!(got.len(), 30);
}

#[test]
fn decoding_is_exact() {
    let o = observations(40);
    let m = HmmModel::new(7);
    assert_eq!(m.viterbi(&lift(&o), &native), prior().viterbi(&o));
    assert!(m.viterbi(&vec![], &native).is_empty());
}

#[test]
fn training_needs_ten_observations() {
    let mut m = HmmModel::new(7);
    assert_eq!(
        m.fit(&lift(&observations(9)), &native),
        Err(TooFewObservations { have: 9 })
    );
    assert_eq!(f(m.pi[0]), 0.25);
    let short = vec![vec![r(1.0)], vec![]];
    assert_eq!(m.fit(&short, &native), Err(TooFewObservations { have: 2 }));
}
