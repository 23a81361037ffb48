//! Order arrivals, and what the trading loop computes.
use quant_trader::assets::universe;
use quant_trader::config::Config;
use quant_trader::data::store::{Bar, BookLevel, DataStore, L2Book, Side, Trade};
use quant_trader::data::table::Table;
use quant_trader::ensemble::EnsembleDistribution;
use quant_trader::estimation::{Observation, StateEstimator};
use quant_trader::features::assembler::FeatureStore;
use quant_trader::features::kalman::KalmanFilter;
use quant_trader::hmm::HmmModel;
use quant_trader::live::features::{present_outputs, regime_after, tick_features};
use quant_trader::live::positions::{
    current_price, leg_to_signal, opened_position, positions_to_close, settle_close, MAX_HOLD_MS,
};
use quant_trader::live::tick::{
    asset_distribution, estimate_hawkes, garch_vol_for, hmm_observation, is_retraining_tick,
    latest_distribution, ou_z_for, LivePipeline, PipelineSettings,
};
use quant_trader::live::training::{retrain_all, MIN_ROWS};
use quant_trader::ml::ensemble::{EnsembleOutput, ModelEnsemble};
use quant_trader::num::elementary::Elementary;
use quant_trader::num::Real;
use quant_trader::orderbook::hawkes::{HawkesProcess, TooFewEvents};
use quant_trader::risk::limits::{RiskLimits, RiskSettings};
use quant_trader::risk::manager::PortfolioState;
use quant_trader::signals::generator::{generate_combo, Direction};
use quant_trader::stats::distribution::ReturnDist;
use quant_trader::stats::garch::Garch11;

fn r(x: f64) -> Real {
    Real::from_bits(x.to_bits())
}

fn f(x: Real) -> f64 {
    f64::from_bits(x.bits)
}

fn native(e: Elementary) -> Real {
    match e {
        Elementary::Exp(x) => r(f(x).exp()),
        Elementary::Ln(x) => r(f(x).ln()),
        Elementary::Sin(x) => r(f(x).sin()),
        Elementary::Cos(x) => r(f(x).cos()),
        Elementary::Tan(x) => r(f(x).tan()),
        Elementary::Atan(x) => r(f(x).atan()),
        Elementary::Atan2(y, x) => r(f(y).atan2(f(x))),
        Elementary::Tanh(x) => r(f(x).tanh()),
        Elementary::Powf(x, y) => r(f(x).powf(f(y))),
        Elementary::LnGamma(x) => r(statrs::function::gamma::ln_gamma(f(x))),
    }
}

fn ll(tb: &[f64], ts: &[f64], end: f64, p: &[f64; 7]) -> f64 {
    let [mb, ms, bb, ss, bs, sb, beta] = *p;
    if mb <= 0.0 || ms <= 0.0 || bb < 0.0 || ss < 0.0 || bs < 0.0 || sb < 0.0 || beta <= 0.0 {
        return f64::NEG_INFINITY;
    }
    let mut ev: Vec<(f64, bool)> =
        tb.iter().map(|&t| (t, true)).chain(ts.iter().map(|&t| (t, false))).collect();
    ev.sort_by(|a, b| a.0.partial_cmp(&b.0).unwrap());
    let (mut sum, mut rb, mut rs) = (0.0f64, 0.0f64, 0.0f64);
    for (i, &(t, buy)) in ev.iter().enumerate() {
        let prev = if i == 0 { 0.0 } else { ev[i - 1].0 };
        let d = (-beta * (t - prev)).exp();
        rb *= d;
        rs *= d;
        let lambda = if buy { mb + bb * rb + sb * rs } else { ms + ss * rs + bs * rb };
        if lambda <= 0.0 {
            return f64::NEG_INFINITY;
        }
        sum += lambda.ln();
        if buy {
            rb += 1.0;
        } else {
            rs += 1.0;
        }
    }
    let g = |v: &[f64]| v.iter().map(|&t| 1.0 - (-beta * (end - t)).exp()).sum::<f64>();
    let ib = mb * end + (bb / beta) * g(tb) + (sb / beta) * g(ts);
    let is = ms * end + (ss / beta) * g(ts) + (bs / beta) * g(tb);
    sum - ib - is
}

fn times() -> (Vec<u64>, Vec<u64>) {
    let b = (0..11u64).map(|i| 1_000 + i * 3_700 + (i * i * 531) % 900).collect();
    let s = (0..10u64).map(|i| 2_500 + i * 4_100 + (i * i * 377) % 700).collect();
    (b, s)
}

#[test]
fn arrival_fit_is_exact() {
    let (b, s) = times();
    let tb: Vec<f64> = b.iter().map(|&t| t as f64 / 1000.0).collect();
    let ts: Vec<f64> = s.iter().map(|&t| t as f64 / 1000.0).collect();
    let end = tb[10].max(ts[9]);
    let mut p = [11.0 / end.max(1.0), 10.0 / end.max(1.0), 0.3, 0.3, 0.1, 0.1, 1.0];
    let (mut best_ll, mut best) = (f64::NEG_INFINITY, p);
    for _ in 0..3000 {
        let l = ll(&tb, &ts, end, &p);
        if l > best_ll {
            best_ll = l;
            best = p;
        }
        let g: Vec<f64> = (0..7)
            .map(|i| {
                let (mut hi, mut lo) = (p, p);
                hi[i] += 1e-6;
                lo[i] -= 1e-6;
                (ll(&tb, &ts, end, &hi) - ll(&tb, &ts, end, &lo)) / (2.0 * 1e-6)
            })
            .collect();
        let floor = [1e-8, 1e-8, 0.0, 0.0, 0.0, 0.0, 0.01];
        for i in 0..7 {
            p[i] = (p[i] + 1e-5 * g[i]).max(floor[i]);
        }
    }
    let h = HawkesProcess::fit(&b, &s, &native).unwrap();
    let got = [h.mu_buy, h.mu_sell, h.alpha_bb, h.alpha_ss, h.alpha_bs, h.alpha_sb, h.beta];
    for i in 0..7 {
        assert_eq!(f(got[i]), best[i], "parameter {}", i);
    }
    assert_eq!(f(h.log_likelihood), best_ll);
    assert_eq!(f(h.cross_excitation_ratio()), best[4] / best[2]);
    assert_eq!(f(h.intensity_ofi()), (best[0] - best[1]) / (best[0] + best[1]));
}

#[test]
fn arrivals_need_ten_events_per_side() {
    let (b, s) = times();
    assert_eq!(
        HawkesProcess::fit(&b, &s[..9], &native).unwrap_err(),
        TooFewEvents { buy: 11, sell: 9 }
    );
    assert!(HawkesProcess::fit(&b[..9], &s, &native).is_err());
}

fn flat_process(bb: f64) -> HawkesProcess {
    HawkesProcess {
        mu_buy: r(0.0),
        mu_sell: r(0.0),
        alpha_bb: r(bb),
        alpha_ss: r(0.1),
        alpha_bs: r(0.2),
        alpha_sb: r(0.1),
        beta: r(1.0),
        log_likelihood: r(0.0),
    }
}

#[test]
fn vanishing_rates_give_no_signal() {
    assert_eq!(f(flat_process(0.0).cross_excitation_ratio()), 0.0);
    assert_eq!(f(flat_process(0.4).cross_excitation_ratio()), 0.2 / 0.4);
    assert_eq!(f(flat_process(0.4).intensity_ofi()), 0.0);
}

#[test]
fn arrival_models_are_kept_and_refitted() {
    let mut s = DataStore::new(10);
    let mut models: Table<HawkesProcess> = Table::new();
    assert_eq!(f(estimate_hawkes(&s, "BTC", &mut models, &native)), 0.0);
    s.push_trade("BTC", &Trade { coin: "BTC".into(), time: 1, side: Side::Bid, sz: None });
    assert_eq!(f(estimate_hawkes(&s, "BTC", &mut models, &native)), 0.0);
    models.insert("BTC", flat_process(0.4));
    assert_eq!(f(estimate_hawkes(&s, "BTC", &mut models, &native)), 0.5);
    let (b, a) = times();
    let mut s = DataStore::new(10);
    for t in &b {
        s.push_trade("BTC", &Trade { coin: "BTC".into(), time: *t, side: Side::Bid, sz: None });
    }
    for t in &a {
        s.push_trade("BTC", &Trade { coin: "BTC".into(), time: *t, side: Side::Ask, sz: None });
    }
    let got = estimate_hawkes(&s, "BTC", &mut models, &native);
    let h = HawkesProcess::fit(&b, &a, &native).unwrap();
    assert_eq!(got.bits, h.cross_excitation_ratio().bits);
    assert_eq!(models.get("BTC").unwrap().beta.bits, h.beta.bits);
}

fn bar(t: u64, close: f64, ret: f64) -> Bar {
    Bar {
        open_time: t,
        open: r(close),
        high: r(close),
        low: r(close),
        close: r(close),
        volume: r(1.0),
        num_trades: 1,
        log_return: r(ret),
    }
}

fn output(edge: f64, vol: f64) -> EnsembleOutput {
    EnsembleOutput {
        asset: "A".into(),
        p_up: r(0.0),
        p_flat: r(0.0),
        p_down: r(0.0),
        directional_edge: r(edge),
        signal_confidence: r(0.0),
        predicted_vol_4h: r(vol),
    }
}

#[test]
fn regime_observation_is_exact() {
    let (b, e) = (output(0.3, 0.02), output(-0.1, 0.04));
    let p = PortfolioState::new(r(100.0));
    let all = vec![output(0.3, 0.02), output(-0.1, 0.04)];
    let v: Vec<f64> = hmm_observation(&b, &e, &all, &p).into_iter().map(f).collect();
    assert_eq!(v, vec![0.3, -0.1, (0.02 + 0.04) / 2.0, 0.7, 0.0, 0.0, 0.0]);
    let v = hmm_observation(&b, &e, &vec![], &p);
    assert_eq!(f(v[2]), 0.0);
}

#[test]
fn retraining_comes_once_a_week() {
    assert!(is_retraining_tick(2016) && is_retraining_tick(4032));
    assert!(!is_retraining_tick(2015));
}

fn limits() -> RiskLimits {
    RiskLimits::from_settings(&RiskSettings {
        max_gross_exposure: None,
        max_net_exposure: None,
        max_leverage: None,
        max_single_asset_weight: None,
        max_daily_drawdown: None,
        max_portfolio_drawdown: None,
        hard_leverage_limit: None,
        min_signal_confidence: None,
        min_risk_reward: None,
        max_concurrent_positions: None,
        target_daily_vol: None,
        vol_kill_multiplier: None,
        min_log_predictive: None,
        max_pairwise_correlation: None,
        kelly_fraction: None,
    })
}

fn config() -> Config {
    Config {
        private_key: String::new(),
        wallet_address: String::new(),
        use_testnet: true,
        max_portfolio_leverage: r(3.0),
        max_single_asset_weight: r(0.3),
        daily_drawdown_limit: r(0.08),
        target_daily_vol: r(0.015),
        kelly_fraction: r(0.5),
        hmm_states: 4,
        gb_n_estimators: 2,
        gb_learning_rate: r(0.1),
        gb_max_depth: 2,
        history_days: 1,
        max_combo_assets: 1,
        max_combo_tc_bps: r(25.0),
        enumerate_combo_subsets: true,
        signal_interval_secs: 1,
    }
}

fn book(bid: f64, ask: f64) -> L2Book {
    let l = |px| vec![BookLevel { px: Some(r(px)), sz: Some(r(1.0)) }];
    L2Book { coin: "BTC".into(), time: 0, levels: [l(ask), l(bid)] }
}

#[test]
fn orders_become_positions_and_are_closed() {
    let u = universe();
    let mut s = DataStore::new(10);
    s.update_book("BTC", &book(99.0, 101.0));
    let p = PortfolioState::new(r(10_000.0));
    let mut pipe = LivePipeline::new(&native);
    let obs = Observation { price: r(100.0), volume: r(1.0), timestamp_ms: 0 };
    let (post, mut d) = pipe.observe(&obs, Some(flat_process(0.4)), &native).unwrap();
    assert_eq!(post.level.bits, pipe.kf.posterior(&native).level.bits);
    assert_eq!(d.weights.len(), 3);
    assert_eq!(d.weights[2].0, "orderbook");
    assert!(f(d.weights[2].1) > 0.0);
    assert_eq!(f(d.weights[1].1), 0.0);
    d.p_up = r(0.7);
    d.p_down = r(0.1);
    d.predictive_mean = r(0.01);
    d.predictive_std = r(0.01);
    d.confidence = r(0.8);
    let ad = asset_distribution(&u[0], d, &post, &p, &s, r(5.0));
    assert_eq!(f(ad.entry_price), 100.0);
    assert_eq!(f(ad.estimated_tc_bps), 2.0 / 100.0 * 10_000.0);
    assert_eq!(f(ad.current_fraction), 0.0);
    let combo = generate_combo(&[ad], &p, &config(), 42);
    assert!(combo.is_none(), "too expensive");
    s.update_book("BTC", &book(99.999, 100.001));
    let e = EnsembleDistribution {
        p_up: r(0.7),
        p_down: r(0.1),
        predictive_mean: r(0.01),
        predictive_std: r(0.01),
        confidence: r(0.8),
        weights: vec![],
    };
    let ad = asset_distribution(&u[0], e, &post, &p, &s, r(5.0));
    let combo = generate_combo(&[ad], &p, &config(), 42).unwrap();
    let sig = leg_to_signal(&combo.legs[0], &combo, r(0.7), r(0.1), r(0.02));
    assert_eq!(sig.signal_id, format!("{}/BTC", combo.combo_id));
    assert_eq!((sig.generated_at_ms, sig.asset_index), (42, 0));
    assert_eq!(f(sig.directional_edge), 0.7 - 0.1);
    assert_eq!(f(sig.risk_reward()), (f(sig.take_profit) - 100.0) / (100.0 - f(sig.stop_loss)));
    assert_eq!(f(sig.stop_distance_pct()), (f(sig.stop_loss) - 100.0).abs() / 100.0);
    let pos = opened_position(&sig, 7, Some(8), None, 1_000);
    assert_eq!((pos.oid, pos.sl_oid, pos.tp_oid), (Some(7), Some(8), None));
    assert!(pos.direction == Direction::Long);
    let mut p = p;
    p.open_position(pos);
    assert!(positions_to_close(&p, &s, &limits(), 1_000 + MAX_HOLD_MS).is_empty());
    let due = positions_to_close(&p, &s, &limits(), 1_001 + MAX_HOLD_MS);
    assert_eq!(due, vec![("BTC".to_string(), "time_stop")]);
    s.update_book("BTC", &book(90.0, 90.0));
    let due = positions_to_close(&p, &s, &limits(), 1_000);
    assert_eq!(due, vec![("BTC".to_string(), "vol_stop")]);
    settle_close(&mut p, "BTC", false);
    assert_eq!(p.position("BTC").unwrap().oid, Some(7));
    settle_close(&mut p, "BTC", true);
    assert!(p.position("BTC").is_none());
    assert_eq!(f(p.nav), 10_000.0);
    assert_eq!(f(current_price(&s, "ETH", r(3.0))), 3.0);
    assert_eq!(f(current_price(&s, "BTC", r(3.0))), 90.0);
}

#[test]
fn everything_is_retrained() {
    let u: Vec<_> = universe().into_iter().take(2).collect();
    let mut s = DataStore::new(200);
    for i in 0..60u64 {
        let t = i as f64;
        let x = 50.0 + 0.2 * t + (t * 0.3).sin();
        let y = 3.0 + 1.5 * x + (t * 2.1).sin();
        let ret = 0.01 * (t * 0.83).sin() + 0.004 * (t * 2.9).cos();
        for (sym, c) in [("BTC", y), ("ETH", x)] {
            s.push_bar(sym, "5m", bar(i, c, ret));
            s.push_bar(sym, "1d", bar(i, c, ret));
        }
        s.push_bar("BTC", "1h", bar(i, y, ret));
    }
    let mut kalman: Table<KalmanFilter> = Table::new();
    kalman.insert("BTC", KalmanFilter::default_crypto());
    kalman.insert("ETH", KalmanFilter::default_crypto());
    let mut garch: Table<Garch11> = Table::new();
    let mut dists: Table<ReturnDist> = Table::new();
    let mut ous = Vec::new();
    let mut rows = FeatureStore::new(500);
    let mut ml = ModelEnsemble::new(2, r(0.1), 2);
    retrain_all(
        &s, &u, &mut kalman, &mut garch, &mut dists, &mut ous, &mut rows, &mut ml, 9, &native,
    );
    let rets = s.log_returns("BTC", "1h");
    let g = Garch11::fit(&rets, &native).unwrap();
    assert_eq!(garch.get("BTC").unwrap().omega.bits, g.omega.bits);
    assert!(garch.get("ETH").is_none());
    assert!(dists.get("BTC").is_some() && dists.get("ETH").is_none());
    assert_eq!(ous.len(), 1);
    assert_eq!((ous[0].asset1.as_str(), ous[0].asset2.as_str()), ("BTC", "ETH"));
    assert_eq!(rows.latest("BTC").unwrap().timestamp_ms, 9);
    let z = ous[0].z_score(s.closes("BTC", "5m")[59], s.closes("ETH", "5m")[59]);
    assert_eq!(rows.latest("ETH").unwrap().ou_z_score.bits, z.bits);
    assert_eq!(ou_z_for(&ous, &s, "BTC").bits, z.bits);
    assert_eq!(f(ou_z_for(&ous, &s, "SOL")), 0.0);
    assert_eq!(f(rows.latest("ETH").unwrap().garch_vol), 0.01);
    let vol = g.forecast_sigma(&s.log_returns("BTC", "5m"));
    assert_eq!(rows.latest("BTC").unwrap().garch_vol.bits, vol.bits);
    assert_eq!(garch_vol_for(&garch, &s, "BTC").bits, vol.bits);
    assert_eq!(f(garch_vol_for(&garch, &s, "ETH")), 0.01);
    assert!(kalman.get("ETH").unwrap().level().bits != 0);
    assert!(!ml.is_trained("BTC"));
}

#[test]
fn tick_brings_every_asset_forward() {
    let u: Vec<_> = universe().into_iter().take(2).collect();
    let mut s = DataStore::new(200);
    for i in 0..40u64 {
        s.push_bar("BTC", "5m", bar(i, 100.0 + i as f64, 0.01));
    }
    s.push_bar("ETH", "5m", bar(0, 10.0, 0.0));
    let (b, a) = times();
    for t in &b {
        s.push_trade("BTC", &Trade { coin: "BTC".into(), time: *t, side: Side::Bid, sz: None });
    }
    for t in &a {
        s.push_trade("BTC", &Trade { coin: "BTC".into(), time: *t, side: Side::Ask, sz: None });
    }
    let mut kalman: Table<KalmanFilter> = Table::new();
    kalman.insert("BTC", KalmanFilter::default_crypto());
    kalman.insert("ETH", KalmanFilter::default_crypto());
    let mut hawkes: Table<HawkesProcess> = Table::new();
    let mut rows = FeatureStore::new(500);
    let outs = tick_features(
        &u,
        &s,
        &mut kalman,
        &mut hawkes,
        &mut rows,
        &Table::new(),
        &vec![],
        &ModelEnsemble::new(2, r(0.1), 2),
        77,
        &native,
    );
    assert!(outs.len() == 2 && outs[0].is_none() && outs[1].is_none());
    let mut filter = KalmanFilter::default_crypto();
    filter.update(r(139.0));
    assert_eq!(kalman.get("BTC").unwrap().level().bits, filter.level().bits);
    assert_eq!(f(kalman.get("ETH").unwrap().level()), 0.0);
    let h = HawkesProcess::fit(&b, &a, &native).unwrap();
    assert_eq!(hawkes.get("BTC").unwrap().beta.bits, h.beta.bits);
    let row = rows.latest("BTC").unwrap();
    assert_eq!(row.timestamp_ms, 77);
    assert_eq!(f(row.garch_vol), 0.01);
    assert_eq!(row.hawkes_cross_ratio.bits, h.cross_excitation_ratio().bits);
    assert!(rows.latest("ETH").is_none());

    let p = PortfolioState::new(r(1_000.0));
    let mut pipe = LivePipeline::new(&native);
    let d = latest_distribution(&u[0], &s, &mut pipe, &hawkes, &p, r(5.0), &native).unwrap();
    let mut other = LivePipeline::new(&native);
    let obs = Observation { price: r(139.0), volume: r(1.0), timestamp_ms: 39 };
    let (post, e) = other.observe(&obs, Some(h), &native).unwrap();
    assert_eq!(d.entry_price.bits, post.level.bits);
    assert_eq!(d.ensemble.p_up.bits, e.p_up.bits);
    assert_eq!(f(d.estimated_tc_bps), 5.0);
    let sol = &universe()[2];
    assert!(latest_distribution(sol, &s, &mut pipe, &hawkes, &p, r(5.0), &native).is_none());
}

#[test]
fn regime_needs_both_anchors() {
    let named = |name: &str, edge: f64| {
        let mut o = output(edge, 0.02);
        o.asset = name.into();
        o
    };
    let p = PortfolioState::new(r(100.0));
    let hmm = HmmModel::new(7);
    let outs = present_outputs(vec![None, Some(named("ETH", -0.1)), Some(named("BTC", 0.3))]);
    assert_eq!(outs.len(), 2);
    let got = regime_after(&outs, &p, &hmm, &native).unwrap();
    let obs = hmm_observation(&outs[1], &outs[0], &outs, &p);
    let want = hmm.filter_last(&vec![obs], &native);
    assert_eq!(got.regime, want.regime);
    assert_eq!(got.probability.bits, want.probability.bits);
    let one = present_outputs(vec![Some(named("ETH", -0.1)), None]);
    assert!(regime_after(&one, &p, &hmm, &native).is_none());
}

#[test]
fn an_asset_listed_twice_is_brought_forward_twice() {
    let u = vec![universe()[0].clone(), universe()[0].clone()];
    let mut s = DataStore::new(200);
    for i in 0..40u64 {
        s.push_bar("BTC", "5m", bar(i, 100.0 + i as f64, 0.01));
    }
    let mut kalman: Table<KalmanFilter> = Table::new();
    kalman.insert("BTC", KalmanFilter::default_crypto());
    let mut hawkes: Table<HawkesProcess> = Table::new();
    let mut rows = FeatureStore::new(500);
    let outs = tick_features(
        &u,
        &s,
        &mut kalman,
        &mut hawkes,
        &mut rows,
        &Table::new(),
        &vec![],
        &ModelEnsemble::new(2, r(0.1), 2),
        77,
        &native,
    );
    assert_eq!(outs.len(), 2);
    let mut filter = KalmanFilter::default_crypto();
    filter.update(r(139.0));
    filter.update(r(139.0));
    assert_eq!(kalman.get("BTC").unwrap().level().bits, filter.level().bits);
    assert_eq!(rows.latest("BTC").unwrap().timestamp_ms, 77);
}

#[test]
fn models_are_trained_from_their_least_number_of_rows_on() {
    let u: Vec<_> = universe().into_iter().take(1).collect();
    let mut s = DataStore::new(200);
    for i in 0..40u64 {
        let c = 100.0 + (i as f64 * 0.7).sin();
        s.push_bar("BTC", "5m", bar(i, c, 0.001 * (i as f64).sin()));
    }
    let mut kalman: Table<KalmanFilter> = Table::new();
    kalman.insert("BTC", KalmanFilter::default_crypto());
    let (mut garch, mut dists): (Table<Garch11>, Table<ReturnDist>) = (Table::new(), Table::new());
    let mut ous = Vec::new();
    let mut rows = FeatureStore::new(500);
    let mut ml = ModelEnsemble::new(2, r(0.1), 2);
    assert_eq!(MIN_ROWS, 68);
    for n in 1..=68u64 {
        retrain_all(
            &s, &u, &mut kalman, &mut garch, &mut dists, &mut ous, &mut rows, &mut ml, n, &native,
        );
        assert_eq!(rows.rows.get("BTC").unwrap().len(), n as usize);
        assert_eq!(ml.is_trained("BTC"), n == 68);
    }
}

#[test]
fn pipelines_follow_their_settings() {
    let d = PipelineSettings::default();
    assert_eq!((f(d.sigma_obs), f(d.sigma_param_walk)), (0.001, 0.00001));
    assert_eq!((d.window_bars, f(d.evidence_decay), f(d.min_weight)), (64, 0.99, 0.05));
    let mut s = d;
    s.window_bars = 70;
    s.sigma_obs = r(0.5);
    s.min_weight = r(0.2);
    let mut pipe = LivePipeline::from_settings(&s, &native);
    assert_eq!((f(pipe.kf.sigma_obs), f(pipe.fusion.min_weight)), (0.5, 0.2));
    for i in 1..=70u64 {
        let obs = Observation {
            price: r(100.0 + (i as f64 * 0.3).sin()),
            volume: r(1.0),
            timestamp_ms: i,
        };
        let (_, e) = pipe.observe(&obs, None, &native).unwrap();
        assert_eq!(f(e.weights[1].1) > 0.0, i == 70);
    }
}
