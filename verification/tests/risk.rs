//! Risk limits, kill switches and pre-trade checks.
use quant_trader::data::table::Table;
use quant_trader::num::Real;
use quant_trader::risk::limits::{
    EwmaVolEstimator, KillAction, KillReason, KillSwitchEvaluator, RiskLimits, RiskSettings,
};
use quant_trader::risk::manager::{PortfolioState, Position, Rejection, RiskManager};
use quant_trader::signals::generator::{Direction, TradeSignal};

fn r(x: f64) -> Real {
    Real::from_bits(x.to_bits())
}

fn f(x: Real) -> f64 {
    f64::from_bits(x.bits)
}

fn default_limits() -> RiskLimits {
    RiskLimits {
        max_gross_exposure: r(3.0),
        max_net_exposure: r(1.5),
        max_leverage: r(5.0),
        max_single_asset_weight: r(0.30),
        max_daily_drawdown: r(0.08),
        max_portfolio_drawdown: r(0.20),
        hard_leverage_limit: r(5.0),
        min_signal_confidence: r(0.60),
        min_risk_reward: r(1.5),
        max_concurrent_positions: 5,
        target_daily_vol: r(0.015),
        vol_kill_multiplier: r(3.0),
        min_log_predictive: r(-10.0),
        max_pairwise_correlation: r(0.75),
        kelly_fraction: r(0.3),
    }
}

fn unset() -> RiskSettings {
    RiskSettings {
        max_gross_exposure: None,
        max_net_exposure: None,
        max_leverage: None,
        max_single_asset_weight: None,
        max_daily_drawdown: None,
        max_portfolio_drawdown: None,
        hard_leverage_limit: None,
        min_signal_confidence: None,
        min_risk_reward: None,
        max_concurrent_positions: None,
        target_daily_vol: None,
        vol_kill_multiplier: None,
        min_log_predictive: None,
        max_pairwise_correlation: None,
        kelly_fraction: None,
    }
}

fn signal(asset: &str) -> TradeSignal {
    TradeSignal {
        signal_id: "s".into(),
        generated_at_ms: 1,
        asset: asset.into(),
        asset_index: 0,
        direction: Direction::Long,
        entry_price: r(100.0),
        stop_loss: r(98.0),
        take_profit: r(106.0),
        leverage: r(1.0),
        position_size_usd: r(1000.0),
        expected_value: r(0.1),
        signal_confidence: r(0.7),
        predicted_vol_4h: r(0.02),
        directional_edge: r(0.4),
        regime_label: "trending".into(),
        ensemble_p_up: r(0.6),
        ensemble_p_down: r(0.2),
        ensemble_confidence: r(0.7),
    }
}

fn position(asset: &str, direction: Direction, size: f64, leverage: f64) -> Position {
    Position {
        asset: asset.into(),
        direction,
        entry_price: r(100.0),
        size_usd: r(size),
        leverage: r(leverage),
        stop_loss: r(98.0),
        take_profit: r(106.0),
        open_time_ms: 1_000,
        oid: Some(1),
        sl_oid: None,
        tp_oid: None,
    }
}

#[test]
fn close_all_on_deep_drawdown() {
    let limits = default_limits();
    let eval = KillSwitchEvaluator::new(&limits);
    let action = eval.evaluate(r(0.25), r(2.0), r(0.01), r(-1.0), 2);
    assert!(matches!(action, Some(KillAction::CloseAll { .. })));
}

#[test]
fn halt_on_daily_drawdown() {
    let limits = default_limits();
    let eval = KillSwitchEvaluator::new(&limits);
    let action = eval.evaluate(r(0.09), r(2.0), r(0.01), r(-1.0), 2);
    assert!(matches!(action, Some(KillAction::HaltNewTrades { .. })));
}

#[test]
fn no_action_under_limits() {
    let limits = default_limits();
    let eval = KillSwitchEvaluator::new(&limits);
    let action = eval.evaluate(r(0.03), r(1.5), r(0.01), r(-1.0), 2);
    assert!(action.is_none());
}

#[test]
fn ewma_vol_updates() {
    let mut est = EwmaVolEstimator::new(r(0.94));
    for _ in 0..50 {
        est.update(r(0.01));
    }
    let vol = f(est.current_vol());
    assert!((vol - 0.01).abs() < 0.005, "vol={}", vol);
}

#[test]
fn ewma_vol_is_exact() {
    let mut est = EwmaVolEstimator::new(r(0.9));
    let mut var = 0.0f64;
    for (i, x) in [0.01f64, -0.02, 0.005, 0.0].iter().enumerate() {
        var = if i == 0 { x * x } else { 0.9 * var + (1.0 - 0.9) * x * x };
        assert_eq!(f(est.update(r(*x))), var.sqrt());
    }
    assert_eq!(f(est.current_vol()), var.sqrt());
}

#[test]
fn each_kill_switch_gives_its_reason() {
    let limits = default_limits();
    let eval = KillSwitchEvaluator::new(&limits);
    assert!(matches!(
        eval.evaluate(r(0.0), r(4.75), r(0.0), r(0.0), 0),
        Some(KillAction::HaltNewTrades { .. })
    ));
    assert!(matches!(
        eval.evaluate(r(0.0), r(5.1), r(0.0), r(0.0), 0),
        Some(KillAction::CloseAll { reason: KillReason::LeverageFarExceeded { .. } })
    ));
    match eval.evaluate(r(0.1), r(3.5), r(0.05), r(-20.0), 0) {
        Some(KillAction::ReduceAll { fraction, reason: KillReason::RealizedVol { realized_vol, .. } }) => {
            assert_eq!(f(fraction), 0.5);
            assert_eq!(f(realized_vol), 0.05);
        }
        other => panic!("{:?}", other),
    }
    assert!(matches!(
        eval.evaluate(r(0.1), r(3.5), r(0.01), r(-20.0), 0),
        Some(KillAction::ReduceAll { reason: KillReason::EstimatorInstability { .. }, .. })
    ));
    match eval.evaluate(r(0.1), r(3.5), r(0.01), r(0.0), 0) {
        Some(KillAction::HaltNewTrades { reason: KillReason::DailyDrawdown { percent, limit_percent } }) => {
            assert_eq!(f(percent), 0.1 * 100.0);
            assert_eq!(f(limit_percent), 0.08 * 100.0);
        }
        other => panic!("{:?}", other),
    }
    assert!(matches!(
        eval.evaluate(r(0.0), r(3.5), r(0.01), r(0.0), 0),
        Some(KillAction::HaltNewTrades { reason: KillReason::LeverageExceeded { .. } })
    ));
}

#[test]
fn limits_have_defaults_and_overrides() {
    let d = RiskLimits::from_settings(&unset());
    assert_eq!(f(d.max_gross_exposure), 3.0);
    assert_eq!(f(d.max_net_exposure), 1.5);
    assert_eq!(f(d.max_leverage), 5.0);
    assert_eq!(f(d.max_single_asset_weight), 0.30);
    assert_eq!(f(d.max_daily_drawdown), 0.08);
    assert_eq!(f(d.max_portfolio_drawdown), 0.15);
    assert_eq!(f(d.hard_leverage_limit), 5.0);
    assert_eq!(f(d.min_signal_confidence), 0.60);
    assert_eq!(f(d.min_risk_reward), 1.5);
    assert_eq!(d.max_concurrent_positions, 5);
    assert_eq!(f(d.target_daily_vol), 0.015);
    assert_eq!(f(d.vol_kill_multiplier), 3.0);
    assert_eq!(f(d.min_log_predictive), -10.0);
    assert_eq!(f(d.max_pairwise_correlation), 0.75);
    assert_eq!(f(d.kelly_fraction), 0.3);
    let mut s = unset();
    s.max_leverage = Some(r(7.5));
    s.max_concurrent_positions = Some(2);
    let d = RiskLimits::from_settings(&s);
    assert_eq!(f(d.max_leverage), 7.5);
    assert_eq!(d.max_concurrent_positions, 2);
    assert_eq!(f(d.max_gross_exposure), 3.0);
}

#[test]
fn signal_passes_all_checks() {
    let limits = default_limits();
    let p = PortfolioState::new(r(10_000.0));
    assert!(RiskManager::new(&limits).check_signal(&signal("BTC"), &p, None).is_ok());
}

#[test]
fn each_check_rejects() {
    let limits = default_limits();
    let m = RiskManager::new(&limits);
    let mut p = PortfolioState::new(r(10_000.0));
    p.update_nav(r(9_000.0));
    assert!(matches!(m.check_signal(&signal("BTC"), &p, None), Err(Rejection::Drawdown { .. })));

    let p = PortfolioState::new(r(10_000.0));
    let mut s = signal("BTC");
    s.leverage = r(40.0);
    match m.check_signal(&s, &p, None) {
        Err(Rejection::Leverage { new_leverage, limit }) => {
            assert_eq!(f(new_leverage), 4.0);
            assert_eq!(f(limit), 3.0);
        }
        other => panic!("{:?}", other),
    }

    let mut s = signal("BTC");
    s.position_size_usd = r(3_100.0);
    match m.check_signal(&s, &p, None) {
        Err(Rejection::AssetWeight { asset, limit_percent }) => {
            assert_eq!(asset, "BTC");
            assert_eq!(f(limit_percent), 0.30 * 100.0);
        }
        other => panic!("{:?}", other),
    }

    let mut p = PortfolioState::new(r(10_000.0));
    p.open_position(position("ETH", Direction::Long, 500.0, 1.0));
    let mut corr: Table<Real> = Table::new();
    corr.insert("BTC/ETH", r(0.9));
    match m.check_signal(&signal("BTC"), &p, Some(&corr)) {
        Err(Rejection::Correlation { asset, other, percent, .. }) => {
            assert_eq!(asset, "BTC");
            assert_eq!(other, "ETH");
            assert_eq!(f(percent), 0.9 * 100.0);
        }
        other => panic!("{:?}", other),
    }
    assert!(m.check_signal(&signal("BTC"), &p, None).is_ok());

    let p = PortfolioState::new(r(10_000.0));
    let mut s = signal("BTC");
    s.take_profit = r(101.0);
    assert!(matches!(m.check_signal(&s, &p, None), Err(Rejection::RiskReward { .. })));

    let mut p = PortfolioState::new(r(10_000.0));
    for a in ["A", "B", "C", "D", "E"] {
        p.open_position(position(a, Direction::Long, 100.0, 1.0));
    }
    assert!(matches!(
        m.check_signal(&signal("BTC"), &p, None),
        Err(Rejection::ConcurrentPositions { maximum: 5 })
    ));

    let p = PortfolioState::new(r(10_000.0));
    let mut s = signal("BTC");
    s.signal_confidence = r(0.5);
    assert!(matches!(m.check_signal(&s, &p, None), Err(Rejection::Confidence { .. })));
}

#[test]
fn pair_names_are_alphabetic() {
    let p = PortfolioState::new(r(1.0));
    let mut corr: Table<Real> = Table::new();
    corr.insert("ARB/BTC", r(0.1));
    corr.insert("BTC/BTCX", r(0.2));
    assert_eq!(f(p.position_correlation("BTC", "ARB", Some(&corr))), 0.1);
    assert_eq!(f(p.position_correlation("ARB", "BTC", Some(&corr))), 0.1);
    assert_eq!(f(p.position_correlation("BTCX", "BTC", Some(&corr))), 0.2);
    assert_eq!(f(p.position_correlation("BTC", "SOL", Some(&corr))), 0.5);
    assert_eq!(f(p.position_correlation("BTC", "ARB", None)), 0.5);
}

#[test]
fn portfolio_keeps_one_position_per_asset() {
    let mut p = PortfolioState::new(r(10_000.0));
    p.open_position(position("BTC", Direction::Long, 1_000.0, 2.0));
    p.open_position(position("ETH", Direction::Short, 500.0, 3.0));
    p.open_position(position("BTC", Direction::Short, 700.0, 1.0));
    assert_eq!(p.n_open_positions(), 2);
    assert!(p.has_position("BTC"));
    assert!(!p.has_position("SOL"));
    assert_eq!(f(p.gross_exposure()), 700.0 + 1_500.0);
    assert_eq!(f(p.net_exposure()), -700.0 - 1_500.0);
    assert_eq!(f(p.leverage_ratio()), 2_200.0 / 10_000.0);
    let closed = p.close_position("BTC").unwrap();
    assert_eq!(f(closed.size_usd), 700.0);
    assert!(p.close_position("BTC").is_none());
    assert_eq!(p.n_open_positions(), 1);
}

#[test]
fn peak_follows_net_asset_value_up() {
    let mut p = PortfolioState::new(r(100.0));
    p.update_nav(r(120.0));
    p.update_nav(r(90.0));
    assert_eq!(f(p.peak_nav), 120.0);
    assert_eq!(f(p.drawdown()), (120.0 - 90.0) / 120.0);
    let empty = PortfolioState::new(r(0.0));
    assert_eq!(f(empty.drawdown()), 0.0);
    assert_eq!(f(empty.leverage_ratio()), 0.0);
}

#[test]
fn positions_are_closed_by_time_and_by_loss() {
    let limits = default_limits();
    let m = RiskManager::new(&limits);
    let long = position("BTC", Direction::Long, 1_000.0, 1.0);
    let hold = 48 * 3_600_000;
    assert_eq!(m.should_close(&long, 1_000 + hold + 1, r(100.0), hold), Some("time_stop"));
    assert_eq!(m.should_close(&long, 1_000 + hold, r(100.0), hold), None);
    assert_eq!(m.should_close(&long, 2_000, r(94.0), hold), Some("vol_stop"));
    assert_eq!(m.should_close(&long, 2_000, r(106.0), hold), None);
    assert_eq!(f(long.unrealised_pnl(r(94.0))), 1_000.0 * ((94.0 - 100.0) / 100.0));
    let short = position("BTC", Direction::Short, 1_000.0, 1.0);
    assert_eq!(m.should_close(&short, 2_000, r(106.0), hold), Some("vol_stop"));
    assert_eq!(f(short.unrealised_pnl(r(94.0))), 1_000.0 * ((100.0 - 94.0) / 100.0));
    assert!(!long.is_stale(500, 0));
}

#[test]
fn closing_undoes_opening() {
    let mut p = PortfolioState::new(r(1_000.0));
    p.open_position(position("BTC", Direction::Long, 100.0, 1.0));
    p.open_position(position("ETH", Direction::Short, 50.0, 2.0));
    let closed = p.close_position("ETH").unwrap();
    assert_eq!(f(closed.size_usd), 50.0);
    assert_eq!(p.n_open_positions(), 1);
    assert_eq!(p.positions[0].asset, "BTC");
    assert!(p.close_position("ETH").is_none());
}
