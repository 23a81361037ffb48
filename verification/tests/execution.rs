//! Cost model and orders.
use quant_trader::data::store::{BookLevel, OrderBookState};
use quant_trader::execution::executor::{
    close_order, entry_order, extract_oid, refresh_nav, stop_loss_order, take_profit_order,
    OrderStatus, Placement, TriggerSide,
};
use quant_trader::execution::model::{ExecutionModel, ImpactParams, RejectionReason};
use quant_trader::num::elementary::Elementary;
use quant_trader::num::Real;
use quant_trader::risk::manager::{PortfolioState, Position};
use quant_trader::signals::generator::{Direction, TradeSignal};

fn r(x: f64) -> Real {
    Real::from_bits(x.to_bits())
}

fn f(x: Real) -> f64 {
    f64::from_bits(x.bits)
}

fn native(e: Elementary) -> Real {
    match e {
        Elementary::Exp(x) => r(f(x).exp()),
        _ => panic!("not asked for"),
    }
}

fn make_signal(age_ms: u64, size: f64, edge: f64) -> TradeSignal {
    TradeSignal {
        signal_id: "test".into(),
        generated_at_ms: 1_000_000u64.saturating_sub(age_ms),
        asset: "BTC".into(),
        asset_index: 0,
        direction: Direction::Long,
        entry_price: r(50_000.0),
        stop_loss: r(49_000.0),
        take_profit: r(52_000.0),
        leverage: r(1.0),
        position_size_usd: r(size),
        expected_value: r(edge),
        signal_confidence: r(0.7),
        directional_edge: r(edge),
        predicted_vol_4h: r(0.02),
        regime_label: "trending".into(),
        ensemble_p_up: r(0.6),
        ensemble_p_down: r(0.2),
        ensemble_confidence: r(0.7),
    }
}

#[test]
fn stale_signal_rejected() {
    let model = ExecutionModel::default_crypto();
    let signal = make_signal(10_000, 1000.0, 0.5);
    let result = model.evaluate(&signal, 1_000_000, r(1e8), r(0.0001), r(1e6), &native);
    assert!(!result.is_executable);
    assert!(result.rejection_reason.label().contains("stale"));
    assert!(matches!(
        result.rejection_reason,
        RejectionReason::SignalStale { age_ms: 10_000, max_ms: 5_000 }
    ));
}

#[test]
fn fresh_signal_with_deep_book() {
    let model = ExecutionModel::default_crypto();
    let signal = make_signal(100, 1000.0, 0.5);
    let result = model.evaluate(&signal, 1_000_000, r(1e8), r(0.0001), r(1e7), &native);
    assert!(f(result.fill_probability) > 0.7);
    assert!(f(result.total_cost_pct) < 0.01);
}

#[test]
fn evaluation_is_exact() {
    let model = ExecutionModel::default_crypto();
    let mut s = make_signal(0, 2_000_000.0, 0.9);
    s.leverage = r(3.0);
    for (long, depth) in [(true, 9e6), (false, 1e6), (true, 1e5)] {
        s.direction = if long { Direction::Long } else { Direction::Short };
        let m = model.evaluate(&s, 1_000_000, r(1e8), r(0.0004), r(depth), &native);
        let size = 2_000_000.0 * 3.0;
        let frac: f64 = size / 1e8;
        let spread = 0.0004 * 0.5;
        let perm = 0.1 * frac;
        let temp = 0.3 * 0.0004 * frac.sqrt();
        let cost = spread + perm + temp;
        let x: f64 = depth / size - 1.0;
        let fill = 1.0 / (1.0 + (-x).exp());
        let adj = 50_000.0 * (spread + perm);
        assert_eq!(f(m.permanent_impact_pct), perm);
        assert_eq!(f(m.temporary_impact_pct), temp);
        assert_eq!(f(m.total_cost_pct), cost);
        assert_eq!(f(m.fill_probability), fill);
        assert_eq!(f(m.expected_fill_usd), 2_000_000.0 * fill);
        assert_eq!(f(m.adjusted_entry_price), if long { 50_000.0 + adj } else { 50_000.0 - adj });
        let ok = 0.9 > cost && fill > 0.3;
        assert_eq!(m.is_executable, ok);
        match m.rejection_reason {
            RejectionReason::Executable => assert!(ok),
            RejectionReason::LowFillProbability { percent } => {
                assert!(fill <= 0.3);
                assert_eq!(f(percent), fill * 100.0);
            }
            other => panic!("{:?}", other),
        }
    }
    s.directional_edge = r(0.006);
    s.direction = Direction::Long;
    let m = model.evaluate(&s, 1_000_000, r(1e8), r(0.0004), r(9e6), &native);
    assert!(matches!(m.rejection_reason, RejectionReason::EdgeBelowCost { .. }));
    assert_eq!(m.rejection_reason.label(), "edge_below_cost");
}

#[test]
fn models_have_defaults() {
    let i = ImpactParams::from_settings(None, Some(r(0.5)), None);
    assert_eq!((f(i.eta), f(i.kappa), f(i.adv_fraction)), (0.1, 0.5, 0.001));
    let m = ExecutionModel::from_settings(None, None, i);
    assert_eq!(m.max_signal_age_ms, 5_000);
    assert_eq!(f(m.spread_cost_bps), 5.0);
    let m = ExecutionModel::from_settings(Some(7), Some(r(1.0)), ImpactParams::default());
    assert_eq!(m.max_signal_age_ms, 7);
    assert_eq!(f(m.spread_cost_bps), 1.0);
}

#[test]
fn orders_follow_the_signal() {
    let mut s = make_signal(0, 1_000.0, 0.5);
    s.leverage = r(5.0);
    s.asset_index = 3;
    let sz = 1_000.0 * 5.0 / 50_000.0;
    let e = entry_order(&s);
    assert!(e.is_buy && !e.reduce_only && e.asset == 3);
    assert_eq!((f(e.limit_px), f(e.sz)), (50_000.0, sz));
    assert!(matches!(e.placement, Placement::RestingLimit));
    let sl = stop_loss_order(&s);
    assert!(!sl.is_buy && sl.reduce_only);
    assert_eq!((f(sl.limit_px), f(sl.sz)), (49_000.0, sz));
    match sl.placement {
        Placement::Trigger { is_market, trigger_px, side } => {
            assert!(is_market && side == TriggerSide::StopLoss);
            assert_eq!(f(trigger_px), 49_000.0);
        }
        other => panic!("{:?}", other),
    }
    let tp = take_profit_order(&s);
    match tp.placement {
        Placement::Trigger { is_market, trigger_px, side } => {
            assert!(!is_market && side == TriggerSide::TakeProfit);
            assert_eq!(f(trigger_px), 52_000.0);
        }
        other => panic!("{:?}", other),
    }
}

fn level(px: f64) -> BookLevel {
    BookLevel { px: Some(r(px)), sz: Some(r(1.0)) }
}

#[test]
fn closing_uses_the_book() {
    let mut pos = Position {
        asset: "SOL".into(),
        direction: Direction::Long,
        entry_price: r(100.0),
        size_usd: r(500.0),
        leverage: r(2.0),
        stop_loss: r(98.0),
        take_profit: r(106.0),
        open_time_ms: 0,
        oid: None,
        sl_oid: None,
        tp_oid: None,
    };
    let book = OrderBookState { bids: vec![level(99.0)], asks: vec![level(101.0)], last_update_ms: 1 };
    let o = close_order(&pos, Some(&book));
    assert_eq!(o.asset, 2);
    assert!(!o.is_buy && o.reduce_only);
    assert_eq!((f(o.limit_px), f(o.sz)), (99.0, 500.0 * 2.0 / 100.0));
    assert!(matches!(o.placement, Placement::ImmediateLimit));
    assert_eq!(f(close_order(&pos, None).limit_px), 100.0 * 1.01);
    pos.direction = Direction::Short;
    let o = close_order(&pos, Some(&book));
    assert!(o.is_buy);
    assert_eq!(f(o.limit_px), 101.0);
    let empty = OrderBookState::new();
    assert_eq!(f(close_order(&pos, Some(&empty)).limit_px), 100.0 * 1.01);
}

#[test]
fn first_live_order_gives_the_identifier() {
    assert_eq!(extract_oid(&[]), None);
    assert_eq!(extract_oid(&[OrderStatus::Other]), None);
    assert_eq!(
        extract_oid(&[OrderStatus::Other, OrderStatus::Filled { oid: 9 }, OrderStatus::Resting { oid: 4 }]),
        Some(9)
    );
    assert_eq!(extract_oid(&[OrderStatus::Resting { oid: 4 }]), Some(4));
}

#[test]
fn account_value_becomes_net_asset_value() {
    let mut p = PortfolioState::new(r(100.0));
    refresh_nav(&mut p, Some(r(150.0)));
    assert_eq!((f(p.nav), f(p.peak_nav)), (150.0, 150.0));
    refresh_nav(&mut p, Some(r(120.0)));
    refresh_nav(&mut p, None);
    assert_eq!((f(p.nav), f(p.peak_nav)), (120.0, 150.0));
}

#[test]
fn fill_probability_is_a_probability() {
    let m = ExecutionModel::default_crypto();
    for depth in [0.0, 500.0, 1_000.0, 1e12, -1e12] {
        let s = make_signal(100, 1_000.0, 0.5);
        let e = m.evaluate(&s, 1_000_000, r(1e8), r(0.001), r(depth), &native);
        assert!((0.0..=1.0).contains(&f(e.fill_probability)), "{}", depth);
    }
}
