//! Walk-forward backtests.
use quant_trader::backtest::engine::Series;
use quant_trader::backtest::metrics::compute_fold_metrics;
use quant_trader::backtest::{
    BacktestBar, BacktestEngine, BacktestResult, FoldResult, SimulatedTrade, WalkForwardConfig,
};
use quant_trader::num::elementary::Elementary;
use quant_trader::num::Real;
use quant_trader::risk::limits::{RiskLimits, RiskSettings};

fn r(x: f64) -> Real {
    Real::from_bits(x.to_bits())
}

fn f(x: Real) -> f64 {
    f64::from_bits(x.bits)
}

fn native(e: Elementary) -> Real {
    match e {
        Elementary::Exp(x) => r(f(x).exp()),
        Elementary::Ln(x) => r(f(x).ln()),
        Elementary::Sin(x) => r(f(x).sin()),
        Elementary::Cos(x) => r(f(x).cos()),
        Elementary::Tan(x) => r(f(x).tan()),
        Elementary::Atan(x) => r(f(x).atan()),
        Elementary::Atan2(y, x) => r(f(y).atan2(f(x))),
        Elementary::Tanh(x) => r(f(x).tanh()),
        Elementary::Powf(x, y) => r(f(x).powf(f(y))),
        Elementary::LnGamma(x) => r(statrs::function::gamma::ln_gamma(f(x))),
    }
}

fn limits() -> RiskLimits {
    RiskLimits::from_settings(&RiskSettings {
        max_gross_exposure: None,
        max_net_exposure: None,
        max_leverage: None,
        max_single_asset_weight: None,
        max_daily_drawdown: None,
        max_portfolio_drawdown: None,
        hard_leverage_limit: None,
        min_signal_confidence: None,
        min_risk_reward: None,
        max_concurrent_positions: None,
        target_daily_vol: None,
        vol_kill_multiplier: None,
        min_log_predictive: None,
        max_pairwise_correlation: None,
        kelly_fraction: None,
    })
}

fn synthetic_bars(n: usize, drift: f64) -> Vec<BacktestBar> {
    let mut bars = Vec::with_capacity(n);
    let mut price = 100.0f64;
    for i in 0..n as u64 {
        price *= 1.0 + drift + 0.001 * ((i as f64 * 0.1).sin());
        bars.push(BacktestBar {
            timestamp_ms: i * 300_000,
            open: r(price),
            high: r(price * 1.002),
            low: r(price * 0.998),
            close: r(price),
            volume: r(1_000_000.0),
            spread_pct: r(0.0001),
            book_depth_usd: r(1_000_000.0),
        });
    }
    bars
}

#[test]
fn backtest_runs_without_panic() {
    let config = WalkForwardConfig {
        train_bars: 100,
        test_bars: 50,
        max_folds: 2,
        initial_nav: r(10_000.0),
        simulate_execution: true,
        adv_24h_usd: r(1e8),
    };
    let engine = BacktestEngine::new(config, limits());

    let bars = vec![
        Series { asset: "BTC".to_string(), bars: synthetic_bars(350, 0.0001) },
        Series { asset: "ETH".to_string(), bars: synthetic_bars(350, 0.00008) },
    ];

    let result = engine.run(&bars, &native);
    assert_eq!(result.folds.len(), 2);
    assert_eq!(result.folds[1].fold_idx, 1);
    assert_eq!(result.folds[1].n_bars, 50);
    assert_eq!(result.aggregate().n_bars, 100);
}

#[test]
fn metrics_computed_for_drift() {
    let config = WalkForwardConfig {
        train_bars: 100,
        test_bars: 100,
        max_folds: 1,
        ..Default::default()
    };
    let engine = BacktestEngine::new(config, limits());

    let bars = vec![Series { asset: "BTC".to_string(), bars: synthetic_bars(200, 0.001) }];

    let result = engine.run(&bars, &native);
    assert!(!result.folds.is_empty());
    let fold = &result.folds[0];
    assert!(fold.n_bars > 0);
    assert!(fold.n_trades > 0);
}

#[test]
fn folds_follow_the_shortest_series() {
    let config = WalkForwardConfig {
        train_bars: 20,
        test_bars: 5,
        max_folds: 0,
        ..Default::default()
    };
    let engine = BacktestEngine::new(config, limits());
    let bars = vec![
        Series { asset: "A".to_string(), bars: synthetic_bars(99, 0.001) },
        Series { asset: "B".to_string(), bars: synthetic_bars(76, 0.001) },
    ];
    assert_eq!(engine.run(&bars, &native).folds.len(), 3);
    let mut few = engine;
    few.config.max_folds = 2;
    assert_eq!(few.run(&bars, &native).folds.len(), 2);
    let short = vec![Series { asset: "A".to_string(), bars: synthetic_bars(24, 0.001) }];
    assert_eq!(engine.run(&short, &native).folds.len(), 0);
    assert_eq!(engine.run(&[], &native).folds.len(), 0);
}

#[test]
fn later_bars_do_not_change_earlier_folds() {
    let config = WalkForwardConfig {
        train_bars: 70,
        test_bars: 10,
        max_folds: 1,
        ..Default::default()
    };
    let engine = BacktestEngine::new(config, limits());
    let a = vec![Series { asset: "A".to_string(), bars: synthetic_bars(160, 0.002) }];
    let mut b = vec![Series { asset: "A".to_string(), bars: synthetic_bars(160, 0.002) }];
    for bar in b[0].bars.iter_mut().skip(80) {
        bar.close = r(1.0);
    }
    let (x, y) = (engine.run(&a, &native), engine.run(&b, &native));
    assert_eq!(x.folds[0].total_return.bits, y.folds[0].total_return.bits);
    assert_eq!(x.folds[0].sharpe_ratio.bits, y.folds[0].sharpe_ratio.bits);
}

fn trade(pnl: f64, size: f64) -> SimulatedTrade {
    SimulatedTrade {
        asset: "A".to_string(),
        entry_bar: 0,
        exit_bar: 1,
        direction: true,
        entry_price: r(1.0),
        exit_price: r(1.0),
        size_usd: r(size),
        leverage: r(1.0),
        realized_pnl: r(pnl),
        transaction_cost_usd: r(0.5),
        fill_fraction: r(1.0),
    }
}

#[test]
fn fold_metrics_are_exact() {
    let pnls = [10.0f64, -5.0, -2.0, 4.0, 12.0];
    let trades = [trade(10.0, 100.0), trade(-5.0, 50.0), trade(0.0, 0.5)];
    let m = compute_fold_metrics(
        3,
        &pnls.map(r),
        &trades,
        r(1_000.0),
        r(1_019.0),
        r(0.01),
    );
    let n = 5.0f64;
    let rets: Vec<f64> = pnls.iter().map(|p| p / 1_000.0).collect();
    let mean = rets.iter().sum::<f64>() / n;
    let var = rets.iter().map(|x| (x - mean) * (x - mean)).sum::<f64>() / (n - 1.0);
    let down = rets.iter().map(|x| x.min(0.0) * x.min(0.0)).sum::<f64>() / n;
    let year = 365.0f64 * 24.0 * 12.0;
    assert_eq!(m.fold_idx, 3);
    assert_eq!(m.n_bars, 5);
    assert_eq!(m.n_trades, 3);
    assert_eq!(f(m.sharpe_ratio), mean / var.sqrt() * year.sqrt());
    assert_eq!(f(m.sortino_ratio), mean / down.sqrt() * year.sqrt());
    assert_eq!(f(m.total_return), 1_019.0 / 1_000.0 - 1.0);
    let ann = (1_019.0 / 1_000.0 - 1.0) * (year / n);
    assert_eq!(f(m.annualized_return), ann);
    assert_eq!(f(m.calmar_ratio), ann / 0.01);
    assert_eq!(m.max_drawdown_duration_bars, 3);
    assert_eq!(f(m.hit_rate), 1.0 / 3.0);
    assert_eq!(f(m.avg_win_pct), 0.1);
    assert_eq!(f(m.avg_loss_pct), (0.1 + 0.0) / 2.0);
    assert_eq!(f(m.total_turnover), 150.5);
    assert_eq!(f(m.total_transaction_costs_usd), 1.5);
}

#[test]
fn one_bar_gives_no_metrics() {
    let m = compute_fold_metrics(7, &[r(1.0)], &[], r(1.0), r(2.0), r(0.5));
    assert_eq!(m.fold_idx, 7);
    assert_eq!(m.n_bars, 0);
    assert_eq!(f(m.max_drawdown), 0.0);
}

#[test]
fn folds_are_aggregated() {
    let mut a = FoldResult::default();
    a.n_bars = 10;
    a.n_trades = 2;
    a.total_return = r(0.5);
    a.sharpe_ratio = r(1.0);
    a.max_drawdown = r(0.1);
    a.max_drawdown_duration_bars = 4;
    a.total_turnover = r(100.0);
    let mut b = a;
    b.n_bars = 20;
    b.total_return = r(0.25);
    b.sharpe_ratio = r(2.0);
    b.max_drawdown = r(0.3);
    b.max_drawdown_duration_bars = 2;
    let mut res = BacktestResult::new();
    assert_eq!(res.aggregate().n_bars, 0);
    res.folds.push(a);
    res.folds.push(b);
    let g = res.aggregate();
    assert_eq!(g.n_bars, 30);
    assert_eq!(g.n_trades, 4);
    assert_eq!(f(g.total_return), 1.5 * 1.25 - 1.0);
    assert_eq!(f(g.sharpe_ratio), 1.5);
    assert_eq!(f(g.max_drawdown), 0.3);
    assert_eq!(g.max_drawdown_duration_bars, 4);
    assert_eq!(f(g.total_turnover), 200.0);
}

#[test]
fn bar_returns_are_logarithmic() {
    let bar = synthetic_bars(1, 0.0)[0];
    let c = f(bar.close);
    assert_eq!(f(bar.log_return(r(50.0), &native)), (c / 50.0).ln());
    assert_eq!(f(bar.log_return(r(0.0), &native)), 0.0);
}

#[test]
fn one_fold_keeps_its_return() {
    let mut a = FoldResult::default();
    a.n_bars = 5;
    a.n_trades = 2;
    a.total_return = r(0.1);
    a.max_drawdown = r(0.2);
    let mut res = BacktestResult::new();
    res.folds.push(a);
    let g = res.aggregate();
    assert_eq!((g.n_bars, g.n_trades, f(g.max_drawdown)), (5, 2, 0.2));
    assert!((f(g.total_return) - 0.1).abs() < 1e-12);
}

fn one_fold(engine: &BacktestEngine) -> FoldResult {
    let bars = vec![Series { asset: "BTC".to_string(), bars: synthetic_bars(200, 0.001) }];
    engine.run(&bars, &native).folds[0]
}

fn drift_engine() -> BacktestEngine {
    let config = WalkForwardConfig {
        train_bars: 100,
        test_bars: 100,
        max_folds: 1,
        ..Default::default()
    };
    BacktestEngine::new(config, limits())
}

#[test]
fn execution_is_simulated() {
    let base = one_fold(&drift_engine());
    let mut plain = drift_engine();
    plain.config.simulate_execution = false;
    let without = one_fold(&plain);
    assert!(without.n_trades > 0);
    assert_ne!(base.total_return.bits, without.total_return.bits);
    let mut thin = drift_engine();
    thin.config.adv_24h_usd = r(1e6);
    let costly = one_fold(&thin);
    assert!(f(costly.total_return) < f(base.total_return));
}

#[test]
fn without_simulation_the_whole_position_is_filled() {
    let mut plain = drift_engine();
    plain.config.simulate_execution = false;
    let fold = one_fold(&plain);
    let spread = 0.0001;
    let cost = f(fold.total_transaction_costs_usd);
    assert!((cost - f(fold.total_turnover) * spread).abs() < 1e-9 * cost);
}

#[test]
fn positions_follow_the_optimizer_and_the_limits() {
    let base = one_fold(&drift_engine());
    let mut half = drift_engine();
    half.risk_limits.kelly_fraction = r(0.5 * f(half.risk_limits.kelly_fraction));
    assert!(f(one_fold(&half).total_turnover) < 0.6 * f(base.total_turnover));
    let mut none = drift_engine();
    none.risk_limits.max_single_asset_weight = r(-1.0);
    assert_eq!(one_fold(&none).n_trades, 0);
    none = drift_engine();
    none.risk_limits.max_concurrent_positions = 0;
    assert_eq!(one_fold(&none).n_trades, 0);
    none = drift_engine();
    none.risk_limits.min_signal_confidence = r(2.0);
    assert_eq!(one_fold(&none).n_trades, 0);
    none = drift_engine();
    none.risk_limits.max_gross_exposure = r(0.0);
    assert_eq!(one_fold(&none).n_trades, 0);
    none = drift_engine();
    none.risk_limits.max_daily_drawdown = r(-1.0);
    assert_eq!(one_fold(&none).n_trades, 0);
}

#[test]
fn turnover_is_annualized() {
    let mut a = FoldResult::default();
    assert_eq!(f(a.annualized_turnover()), 0.0);
    a.n_bars = 50;
    a.total_turnover = r(1_000.0);
    let year = 365.0f64 * 24.0 * 12.0;
    assert_eq!(f(a.annualized_turnover()), 1_000.0 * (year / 50.0));
    let mut res = BacktestResult::new();
    res.folds.push(a);
    res.folds.push(a);
    assert_eq!(f(res.aggregate().annualized_turnover()), 2_000.0 * (year / 100.0));
}
