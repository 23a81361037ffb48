//! Indicators, funding features, feature rows and order book features.
use std::collections::VecDeque;

use quant_trader::assets::universe;
use quant_trader::data::store::{
    AssetContextSnapshot, Bar, BookLevel, DataStore, FundingSample, L2Book, OrderBookState, Side,
    Trade,
};
use quant_trader::features::assembler::{assemble_row, FeatureRow, FeatureStore};
use quant_trader::features::funding::{volatility_ratio, FundingFeatures};
use quant_trader::features::kalman::KalmanFilter;
use quant_trader::features::technical::{
    atr, bollinger_position, dist_from_rolling_high, dist_from_rolling_low, ema, macd, roc,
    rolling_beta, rolling_correlation, rsi, volume_z_score,
};
use quant_trader::num::elementary::Elementary;
use quant_trader::num::Real;
use quant_trader::orderbook::features::OrderBookFeatures;

fn r(x: f64) -> Real {
    Real::from_bits(x.to_bits())
}

fn f(x: Real) -> f64 {
    f64::from_bits(x.bits)
}

fn rs(v: &[f64]) -> Vec<Real> {
    v.iter().map(|&x| r(x)).collect()
}

fn native(e: Elementary) -> Real {
    match e {
        Elementary::Ln(x) => r(f(x).ln()),
        Elementary::Tanh(x) => r(f(x).tanh()),
        _ => panic!("not asked for"),
    }
}

fn wave(n: usize, k: f64) -> Vec<f64> {
    (0..n).map(|i| 50.0 + 3.0 * (i as f64 * k).sin() + 0.01 * i as f64).collect()
}

fn mean(v: &[f64]) -> f64 {
    v.iter().sum::<f64>() / v.len() as f64
}

fn ss(v: &[f64], m: f64) -> f64 {
    v.iter().map(|x| (x - m) * (x - m)).sum()
}

fn ema64(v: &[f64], p: usize) -> f64 {
    let k = 2.0 / (p as f64 + 1.0);
    let mut x = v[0];
    for &y in &v[1..] {
        x = y * k + x * (1.0 - k);
    }
    x
}

fn wilder(v: &[f64], p: usize) -> f64 {
    let first = v[..p].iter().sum::<f64>() / p as f64;
    v[p..].iter().fold(first, |a, x| (a * (p as f64 - 1.0) + x) / p as f64)
}

#[test]
fn strength_index_is_exact() {
    let v = wave(40, 0.7);
    let d: Vec<f64> = v.windows(2).map(|w| w[1] - w[0]).collect();
    let g: Vec<f64> = d.iter().map(|&x| if x > 0.0 { x } else { 0.0 }).collect();
    let l: Vec<f64> = d.iter().map(|&x| if x > 0.0 { 0.0 } else { -x }).collect();
    let want = 100.0 - 100.0 / (1.0 + wilder(&g, 14) / wilder(&l, 14));
    assert_eq!(f(rsi(&rs(&v), 14).unwrap()), want);
    assert!(rsi(&rs(&v[..14]), 14).is_none());
    assert_eq!(f(rsi(&rs(&[1.0, 2.0, 3.0]), 2).unwrap()), 100.0);
}

#[test]
fn averages_are_exact() {
    let v = wave(60, 0.4);
    assert_eq!(f(ema(&rs(&v), 9).unwrap()), ema64(&v, 9));
    assert!(ema(&[], 9).is_none() && ema(&rs(&v), 0).is_none());
    let lines: Vec<f64> = (9..=60).map(|i| ema64(&v[..i], 12) - ema64(&v[..i], 26)).collect();
    let line = ema64(&v, 12) - ema64(&v, 26);
    let sig = ema64(&lines, 9);
    let (a, b, c) = macd(&rs(&v)).unwrap();
    assert_eq!((f(a), f(b), f(c)), (line, sig, line - sig));
    assert!(macd(&rs(&v[..34])).is_none());
}

#[test]
fn bands_are_exact() {
    let v = wave(60, 0.4);
    let t = &v[40..];
    let mu = t.iter().sum::<f64>() / 20.0;
    let sd = (ss(t, mu) / 20.0).sqrt();
    let (lo, hi) = (mu - 2.0 * sd, mu + 2.0 * sd);
    assert_eq!(f(bollinger_position(&rs(&v), 20, r(2.0)).unwrap()), (v[59] - lo) / (hi - lo));
    assert!(bollinger_position(&rs(&v), 61, r(2.0)).is_none());
    assert_eq!(f(bollinger_position(&rs(&[2.0; 5]), 5, r(2.0)).unwrap()), 0.0);
}

#[test]
fn ranges_are_exact() {
    let c = wave(30, 0.9);
    let h: Vec<f64> = c.iter().map(|x| x + 0.5).collect();
    let l: Vec<f64> = c.iter().map(|x| x - 0.25).collect();
    let trs: Vec<f64> = (1..30)
        .map(|i| (h[i] - l[i]).max((h[i] - c[i - 1]).abs()).max((l[i] - c[i - 1]).abs()))
        .collect();
    assert_eq!(f(atr(&rs(&h), &rs(&l), &rs(&c), 14).unwrap()), wilder(&trs, 14));
    assert!(atr(&rs(&h[..20]), &rs(&l), &rs(&c), 14).is_none());
    assert!(atr(&rs(&h), &rs(&l), &rs(&c), 30).is_none());
    assert_eq!(f(roc(&rs(&c), 5).unwrap()), c[29] / c[24] - 1.0);
    assert!(roc(&rs(&c), 30).is_none());
    assert!(roc(&rs(&[0.0, 1.0]), 1).is_none());
    let top = c[20..].iter().cloned().fold(f64::NEG_INFINITY, f64::max);
    let bottom = c[20..].iter().cloned().fold(f64::INFINITY, f64::min);
    assert_eq!(f(dist_from_rolling_high(&rs(&c), 10).unwrap()), (top - c[29]) / top);
    assert_eq!(f(dist_from_rolling_low(&rs(&c), 10).unwrap()), (c[29] - bottom) / bottom);
    assert!(dist_from_rolling_high(&[], 0).is_none());
    assert_eq!(f(dist_from_rolling_low(&rs(&[0.0, 1.0]), 2).unwrap()), 0.0);
}

#[test]
fn volume_score_is_exact() {
    let v = wave(30, 0.9);
    let t: Vec<f64> = v[20..].iter().map(|x| (x + 1.0).ln()).collect();
    let m = mean(&t);
    let sd = (ss(&t, m) / 10.0).sqrt().max(1e-10);
    assert_eq!(f(volume_z_score(&rs(&v), 10, &native).unwrap()), (t[9] - m) / sd);
    assert!(volume_z_score(&rs(&v), 31, &native).is_none());
    assert!(volume_z_score(&rs(&v), 0, &native).is_none());
}

fn corr64(a: &[f64], b: &[f64], p: usize) -> f64 {
    let (a, b) = (&a[a.len() - p..], &b[b.len() - p..]);
    let (ma, mb) = (a.iter().sum::<f64>() / p as f64, b.iter().sum::<f64>() / p as f64);
    let cov: f64 = a.iter().zip(b).map(|(x, y)| (x - ma) * (y - mb)).sum();
    cov / (ss(a, ma) * ss(b, mb)).sqrt()
}

fn beta64(a: &[f64], b: &[f64], p: usize) -> f64 {
    let (a, b) = (&a[a.len() - p..], &b[b.len() - p..]);
    let (ma, mb) = (a.iter().sum::<f64>() / p as f64, b.iter().sum::<f64>() / p as f64);
    let cov: f64 = a.iter().zip(b).map(|(x, y)| (x - ma) * (y - mb)).sum();
    cov / ss(b, mb)
}

#[test]
fn comovement_is_exact() {
    let (a, b) = (wave(80, 0.3), wave(70, 0.35));
    assert_eq!(f(rolling_correlation(&rs(&a), &rs(&b), 60).unwrap()), corr64(&a, &b, 60));
    assert_eq!(f(rolling_beta(&rs(&a), &rs(&b), 60).unwrap()), beta64(&a, &b, 60));
    assert!(rolling_beta(&rs(&a), &rs(&b), 71).is_none());
    assert!(rolling_correlation(&rs(&a), &rs(&b), 71).is_none());
    assert_eq!(f(rolling_beta(&rs(&a), &rs(&[1.0; 80]), 60).unwrap()), 0.0);
    assert_eq!(f(rolling_correlation(&rs(&a), &rs(&[1.0; 80]), 60).unwrap()), 0.0);
}

fn sample(rate: f64) -> FundingSample {
    FundingSample { time: 0, rate: r(rate), premium: r(0.0) }
}

#[test]
fn funding_features_are_exact() {
    let rates = [0.01, 0.02, -0.005, 0.03];
    let h: VecDeque<FundingSample> = rates.iter().map(|&x| sample(x)).collect();
    let q = FundingFeatures::compute(&h, r(101.0), r(100.0));
    let m = mean(&rates);
    let sd = (ss(&rates, m) / 4.0).sqrt();
    let z = (0.03 - m) / sd;
    assert_eq!(f(q.current_rate), 0.03);
    assert_eq!(f(q.annualised), 0.03 * 3.0 * 365.0);
    assert_eq!(f(q.z_score), z);
    assert_eq!(f(q.momentum), 0.03 - -0.005);
    assert_eq!(f(q.premium_pct), (101.0 - 100.0) / 100.0);
    assert_eq!(f(q.contrarian_signal(&native)), (-z / 2.5).tanh());
    assert_eq!(q.to_vec(&native).len(), 6);
    let day = 86_400_000u64;
    let mut old: VecDeque<FundingSample> = h.clone();
    for (i, s) in old.iter_mut().enumerate() {
        s.time = 40 * day + i as u64;
    }
    old.push_front(FundingSample { time: 10 * day + 3, rate: r(0.04), premium: r(0.0) });
    old.push_front(FundingSample { time: 10 * day + 2, rate: r(9.0), premium: r(0.0) });
    let within = [0.04, 0.01, 0.02, -0.005, 0.03];
    let (m, n) = (mean(&within), 5.0);
    let z = (0.03 - m) / (ss(&within, m) / n).sqrt();
    assert_eq!(f(FundingFeatures::compute(&old, r(1.0), r(1.0)).z_score), z);
    let one: VecDeque<FundingSample> = [sample(0.01)].into_iter().collect();
    let q = FundingFeatures::compute(&one, r(1.0), r(0.0));
    assert_eq!((f(q.momentum), f(q.premium_pct)), (0.0, 0.0));
    assert_eq!(f(FundingFeatures::compute(&VecDeque::new(), r(1.0), r(1.0)).z_score), 0.0);
}

#[test]
fn volatility_ratio_is_exact() {
    let (a, b) = (wave(20, 0.3), wave(30, 0.7));
    let vol = |v: &[f64], y: f64| (ss(v, mean(v)) / v.len() as f64 * y).sqrt();
    let want = vol(&a, 24.0 * 365.0) / vol(&b, 365.0);
    assert_eq!(f(volatility_ratio(&rs(&a), &rs(&b))), want);
    assert_eq!(f(volatility_ratio(&rs(&a), &[])), 1.0);
}

fn level(px: f64, sz: f64) -> BookLevel {
    BookLevel { px: Some(r(px)), sz: Some(r(sz)) }
}

#[test]
fn book_features_are_exact() {
    let b = OrderBookState {
        bids: vec![level(99.0, 2.0), level(98.0, 3.0)],
        asks: vec![level(101.0, 1.0), level(102.0, 400.0)],
        last_update_ms: 0,
    };
    let q = OrderBookFeatures::compute(&b, r(1_000_000.0));
    assert_eq!(f(q.mid_price), 100.0);
    assert_eq!(f(q.spread_bps), 2.0 / 100.0 * 10_000.0);
    let (bid, ask): (f64, f64) = (99.0 * 2.0 + 98.0 * 3.0, 101.0 * 1.0 + 102.0 * 400.0);
    assert_eq!((f(q.bid_depth_5), f(q.ask_depth_5)), (bid, ask));
    assert_eq!(f(q.depth_ofi), (bid - ask) / (bid + ask));
    assert_eq!(f(q.depth_ratio), bid / ask);
    assert_eq!(f(q.micro_price), (99.0 * 1.0 + 101.0 * 2.0) / 3.0);
    assert_eq!(f(q.price_impact_1pct), ((10_000.0f64 / (1.0 + 9_899.0 / 102.0) - 100.0) / 100.0).abs());
    let v: Vec<f64> = q.to_vec().into_iter().map(f).collect();
    assert_eq!(v[4], ((99.0 * 1.0 + 101.0 * 2.0) / 3.0 - 100.0) / 100.0);
    let e = OrderBookFeatures::compute(&OrderBookState::new(), r(1.0));
    assert_eq!(f(e.depth_ratio), 0.0);
}

fn bar(t: u64, close: f64, ret: f64) -> Bar {
    Bar {
        open_time: t,
        open: r(close),
        high: r(close),
        low: r(close),
        close: r(close),
        volume: r(10.0 + t as f64),
        num_trades: 1,
        log_return: r(ret),
    }
}

#[test]
fn rows_are_assembled() {
    let u = universe();
    let mut s = DataStore::new(500);
    let closes = wave(90, 0.3);
    let rets: Vec<f64> = (0..90).map(|i| 0.01 * (i as f64 * 0.9).sin()).collect();
    let btc: Vec<f64> = (0..90).map(|i| 0.01 * (i as f64 * 0.8).cos()).collect();
    for i in 0..29 {
        s.push_bar("ETH", "5m", bar(i as u64, closes[i], rets[i]));
    }
    let mut kf = KalmanFilter::default_crypto();
    assert!(assemble_row(&u[1], &s, &mut kf, r(0.1), r(0.2), &rs(&btc), r(0.3), 5).is_none());
    assert_eq!(f(kf.level()), 0.0);
    for i in 29..90 {
        s.push_bar("ETH", "5m", bar(i as u64, closes[i], rets[i]));
        s.push_bar("ETH", "1h", bar(i as u64, closes[i], rets[i]));
        s.push_bar("ETH", "1d", bar(i as u64, closes[i], 2.0 * rets[i]));
    }
    s.push_trade("ETH", &Trade { coin: "ETH".into(), time: 1, side: Side::Bid, sz: Some(r(1.0)) });
    s.push_trade("ETH", &Trade { coin: "ETH".into(), time: 2, side: Side::Bid, sz: Some(r(1.0)) });
    s.push_trade("ETH", &Trade { coin: "ETH".into(), time: 3, side: Side::Ask, sz: Some(r(1.0)) });
    s.push_funding("ETH", sample(0.01));
    s.push_funding("ETH", sample(0.03));
    s.asset_ctx.insert(
        "ETH",
        AssetContextSnapshot {
            funding_rate: r(0.0),
            open_interest: r(0.0),
            mark_px: r(51.0),
            oracle_px: r(50.0),
            prev_day_px: r(0.0),
        },
    );
    let book = L2Book {
        coin: "ETH".into(),
        time: 1,
        levels: [vec![level(51.0, 1e6)], vec![level(49.0, 3.0)]],
    };
    s.update_book("ETH", &book);
    let row =
        assemble_row(&u[1], &s, &mut kf, r(0.1), r(0.2), &rs(&btc), r(0.3), 5).unwrap();
    let mut twin = KalmanFilter::default_crypto();
    let (kl, kv) = twin.update(r(closes[89]));
    assert_eq!((row.kalman_level.bits, row.kalman_velocity.bits), (kl.bits, kv.bits));
    assert_eq!(f(row.kalman_level_dev), (closes[89] - f(kl)) / f(kl));
    assert_eq!((row.asset.as_str(), row.timestamp_ms), ("ETH", 5));
    assert_eq!(f(row.trade_imbalance), 2.0 / 3.0);
    assert_eq!(f(row.funding_momentum), 0.03 - 0.01);
    assert_eq!(f(row.premium_pct), (51.0 - 50.0) / 50.0);
    let beta = beta64(&rets, &btc, 60);
    assert_eq!(f(row.beta_to_btc), beta);
    assert_eq!(f(row.idiosyncratic_ret), rets[89] - beta * btc[89]);
    assert_eq!(f(row.corr_to_btc), corr64(&rets, &btc, 60));
    assert_eq!((f(row.garch_vol), f(row.ou_z_score), f(row.hawkes_cross_ratio)), (0.1, 0.2, 0.3));
    let adv: f64 = (0..24).map(|k| (10.0 + (89 - k) as f64) * closes[89 - k]).sum();
    let ob = OrderBookFeatures::compute(s.books.get("ETH").unwrap(), r(adv));
    assert_eq!(row.price_impact.bits, ob.price_impact_1pct.bits);
    assert_eq!(row.spread_bps.bits, ob.spread_bps.bits);
    assert_eq!(row.to_feature_vec().len(), FeatureRow::n_features());
    assert_eq!(row.to_feature_vec()[17].bits, row.corr_to_btc.bits);
}

#[test]
fn rows_roll_over() {
    let u = universe();
    let mut s = DataStore::new(500);
    for i in 0..30 {
        s.push_bar("BTC", "5m", bar(i, 10.0, 0.0));
    }
    let mut kf = KalmanFilter::default_crypto();
    let mut store = FeatureStore::new(2);
    assert!(store.latest("BTC").is_none());
    for t in 0..3 {
        let row = assemble_row(&u[0], &s, &mut kf, r(0.1), r(0.0), &[], r(0.0), t).unwrap();
        assert_eq!(f(row.beta_to_btc), 1.0);
        assert_eq!(f(row.trade_imbalance), 0.5);
        store.push(row);
    }
    assert_eq!(store.latest("BTC").unwrap().timestamp_ms, 2);
    assert_eq!(store.rows.get("BTC").unwrap().len(), 2);
    let m = store.feature_matrix("BTC");
    assert_eq!((m.len(), m[0].len()), (2, 18));
    assert!(store.feature_matrix("ETH").is_empty());
}
