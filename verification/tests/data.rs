//! Data store, ingestion and configuration.
use quant_trader::assets::{is_listed, macro_anchors, pos_asset_index, universe};
use quant_trader::config::{Config, ConfigError, Setting, Settings, Variable};
use quant_trader::data::ingestion::{
    handle_message, history_start, intervals, load_candles, load_funding, subscriptions,
    AssetContext, FundingRate, Incoming, Subscription,
};
use quant_trader::data::store::{
    Bar, BookLevel, Candle, DataStore, FundingSample, L2Book, OrderBookState, Side, Trade,
    TradeHistory,
};
use quant_trader::data::table::Table;
use quant_trader::error::TradingError;
use quant_trader::num::elementary::Elementary;
use quant_trader::num::Real;
use quant_trader::signals::generator::Direction;
use quant_trader::text::{append_decimal, same_text, text_less};
use rust_decimal::Decimal;

fn r(x: f64) -> Real {
    Real::from_bits(x.to_bits())
}

fn f(x: Real) -> f64 {
    f64::from_bits(x.bits)
}

fn native(e: Elementary) -> Real {
    match e {
        Elementary::Ln(x) => r(f(x).ln()),
        _ => panic!("not asked for"),
    }
}

fn candle(coin: &str, interval: &str, t: u64, close: f64) -> Candle {
    Candle {
        coin: coin.into(),
        interval: interval.into(),
        open_time: t,
        open: Some(r(1.0)),
        high: Some(r(2.0)),
        low: None,
        close: Some(r(close)),
        volume: Some(r(10.0)),
        num_trades: 3,
    }
}

fn trade(coin: &str, time: u64, side: Side) -> Trade {
    Trade { coin: coin.into(), time, side, sz: Some(r(1.0)) }
}

fn level(px: f64, sz: f64) -> BookLevel {
    BookLevel { px: Some(r(px)), sz: Some(r(sz)) }
}

#[test]
fn universe_is_listed_in_order() {
    let u = universe();
    let names: Vec<&str> = u.iter().map(|a| a.symbol.as_str()).collect();
    assert_eq!(names, vec!["BTC", "ETH", "SOL", "HYPE", "ARB", "MATIC", "WIF"]);
    assert_eq!((u[3].index, u[3].max_leverage, u[3].sz_decimals), (107, 10, 2));
    assert_eq!(f(u[0].max_weight), 0.30);
    assert_eq!(f(u[6].max_weight), 0.05);
    assert_eq!(macro_anchors(), vec!["BTC", "ETH"]);
    assert_eq!(pos_asset_index("HYPE"), 107);
    assert_eq!(pos_asset_index("WIF"), 30);
    assert_eq!(pos_asset_index("DOGE"), 0);
    assert!(is_listed(&u, "ARB"));
    assert!(!is_listed(&u, "arb"));
}

#[test]
fn errors_have_messages() {
    assert_eq!(TradingError::Api("x".into()).message(), "API error: x");
    assert_eq!(
        TradingError::InsufficientData { needed: 120, available: 0 }.message(),
        "Insufficient data: need at least 120 bars, have 0"
    );
    assert_eq!(TradingError::ModelNotTrained.message(), "Model not trained");
    assert_eq!(
        TradingError::RiskCheckFailed { reason: "r".into() }.message(),
        "Risk check failed: r"
    );
    assert_eq!(TradingError::Execution("e".into()).message(), "Execution error: e");
    assert_eq!(TradingError::NoSignal.message(), "No signal generated");
    let mut s = String::new();
    append_decimal(&mut s, u64::MAX);
    assert_eq!(s, u64::MAX.to_string());
}

#[test]
fn texts_compare_by_code_points() {
    let words = ["", "A", "AB", "B", "a", "\u{e9}", "\u{1f600}", "AB"];
    for a in words {
        for b in words {
            assert_eq!(text_less(a, b), a < b, "{} {}", a, b);
            assert_eq!(same_text(a, b), a == b);
        }
    }
}

#[test]
fn directions_have_labels() {
    assert!(Direction::Long.is_long());
    assert!(!Direction::Short.is_long());
    assert_eq!(Direction::Long.label(), "LONG");
    assert_eq!(Direction::Short.label(), "SHORT");
}

#[test]
fn tables_bind_names() {
    let mut t: Table<u64> = Table::new();
    assert!(t.get("a").is_none());
    t.insert("a", 1);
    t.insert("b", 2);
    t.insert("a", 3);
    assert_eq!(t.get("a"), Some(&3));
    *t.entry("b", 0) += 5;
    *t.entry("c", 9) += 1;
    assert_eq!(t.get("b"), Some(&7));
    assert_eq!(t.get("c"), Some(&10));
}

#[test]
fn bars_carry_log_returns() {
    let b = Bar::from_candle(&candle("BTC", "5m", 7, 110.0), Some(r(100.0)), &native);
    assert_eq!(f(b.log_return), (110.0f64 / 100.0).ln());
    assert_eq!((b.open_time, b.num_trades), (7, 3));
    assert_eq!(f(b.low), 0.0);
    assert_eq!(f(b.high), 2.0);
    let b = Bar::from_candle(&candle("BTC", "5m", 7, 110.0), None, &native);
    assert_eq!(f(b.log_return), 0.0);
    let b = Bar::from_candle(&candle("BTC", "5m", 7, 110.0), Some(r(0.0)), &native);
    assert_eq!(f(b.log_return), 0.0);
}

#[test]
fn bars_roll_over() {
    let mut s = DataStore::new(3);
    for i in 0..5u64 {
        let b = Bar::from_candle(&candle("BTC", "5m", i, i as f64), None, &native);
        s.push_bar("BTC", "5m", b);
    }
    assert_eq!(s.bars_for("BTC", "5m").unwrap().len(), 3);
    assert!(s.bars_for("BTC", "1h").is_none());
    assert!(s.bars_for("ETH", "5m").is_none());
    let closes: Vec<f64> = s.closes("BTC", "5m").into_iter().map(f).collect();
    assert_eq!(closes, vec![2.0, 3.0, 4.0]);
    assert_eq!(s.log_returns("BTC", "5m").len(), 3);
    assert!(s.closes("ETH", "5m").is_empty());
}

#[test]
fn funding_rolls_over() {
    let mut s = DataStore::new(3);
    for i in 0..205u64 {
        s.push_funding("BTC", FundingSample { time: i, rate: r(0.1), premium: r(0.2) });
    }
    let d = s.funding.get("BTC").unwrap();
    assert_eq!(d.len(), 200);
    assert_eq!(d[0].time, 5);
}

#[test]
fn trades_leave_their_window() {
    let mut h = TradeHistory::new(100);
    assert_eq!(f(h.imbalance()), 0.5);
    h.push(&trade("X", 10, Side::Bid));
    h.push(&trade("X", 50, Side::Ask));
    h.push(&trade("X", 110, Side::Bid));
    assert_eq!(h.buy_times_ms, vec![10, 110]);
    h.push(&trade("X", 111, Side::Bid));
    assert_eq!(h.buy_times_ms, vec![110, 111]);
    assert_eq!(h.sell_times_ms, vec![50]);
    assert_eq!(f(h.imbalance()), 2.0 / 3.0);
    let mut big = trade("X", 112, Side::Ask);
    big.sz = Some(r(7.0));
    h.push(&big);
    assert_eq!(f(h.imbalance()), 2.0 / 10.0);
    h.sell_times_ms.pop_back();
    h.sell_sizes.pop_back();
    h.evict(151);
    assert!(h.sell_times_ms.is_empty() && h.sell_sizes.is_empty());
    assert_eq!(h.buy_times_ms.len(), 2);
}

#[test]
fn books_have_prices_and_depth() {
    let b = OrderBookState {
        bids: vec![level(99.0, 2.0), level(98.0, 3.0), BookLevel { px: None, sz: None }],
        asks: vec![level(101.0, 1.0), level(102.0, 4.0)],
        last_update_ms: 0,
    };
    assert_eq!(f(b.mid_price().unwrap()), 100.0);
    assert_eq!(f(b.spread_bps().unwrap()), (101.0 - 99.0) / 100.0 * 10_000.0);
    assert_eq!(f(b.bid_depth(1)), 2.0);
    assert_eq!(f(b.bid_depth(5)), 5.0);
    assert_eq!(f(b.ask_depth(5)), 5.0);
    assert_eq!(f(b.price_impact(r(50.0), true)), (50.0f64 / (50.0 / 101.0) - 100.0) / 100.0);
    assert!((f(b.price_impact(r(101.0), true)) - 0.01).abs() < 1e-9);
    assert_eq!(
        f(b.price_impact(r(300.0), true)),
        (300.0f64 / (1.0 + 199.0 / 102.0) - 100.0) / 100.0
    );
    assert_eq!(f(b.price_impact(r(1_000.0), true)), 1.0);
    assert_eq!(
        f(b.price_impact(r(400.0), false)),
        (400.0f64 / (2.0 + 202.0 / 98.0) - 100.0) / 100.0
    );
    let e = OrderBookState::new();
    assert!(e.mid_price().is_none() && e.spread_bps().is_none());
    assert_eq!(f(e.price_impact(r(1.0), true)), 0.0);
}

#[test]
fn messages_reach_the_store() {
    let u = universe();
    let mut s = DataStore::new(10);
    let t = vec![
        trade("BTC", 1, Side::Bid),
        trade("DOGE", 2, Side::Bid),
        trade("ETH", 3, Side::Ask),
        trade("BTC", 4, Side::Ask),
    ];
    handle_message(Incoming::Trades(t), &mut s, &u, &native);
    assert_eq!(s.trades.get("BTC").unwrap().buy_times_ms, vec![1]);
    assert_eq!(s.trades.get("BTC").unwrap().sell_times_ms, vec![4]);
    assert_eq!(s.trades.get("BTC").unwrap().max_window_ms, 2 * 3_600_000);
    assert!(s.trades.get("DOGE").is_none());

    let book = L2Book {
        coin: "BTC".into(),
        time: 77,
        levels: [vec![level(1.0, 1.0)], vec![level(2.0, 1.0), level(3.0, 1.0)]],
    };
    handle_message(Incoming::L2Book(book), &mut s, &u, &native);
    let b = s.books.get("BTC").unwrap();
    assert_eq!((b.bids.len(), b.asks.len(), b.last_update_ms), (2, 1, 77));
    let alien = L2Book { coin: "DOGE".into(), time: 1, levels: [vec![], vec![]] };
    handle_message(Incoming::L2Book(alien), &mut s, &u, &native);
    assert!(s.books.get("DOGE").is_none());

    handle_message(Incoming::Candle(candle("ETH", "1m", 1, 10.0)), &mut s, &u, &native);
    handle_message(Incoming::Candle(candle("ETH", "1m", 2, 11.0)), &mut s, &u, &native);
    handle_message(Incoming::Candle(candle("DOGE", "1m", 2, 11.0)), &mut s, &u, &native);
    let rets = s.log_returns("ETH", "1m");
    assert_eq!(rets.len(), 2);
    assert_eq!(f(rets[1]), (11.0f64 / 10.0).ln());
    assert!(s.bars_for("DOGE", "1m").is_none());

    let mut mids: Table<Decimal> = Table::new();
    mids.insert("BTC", Decimal::new(12345, 2));
    handle_message(Incoming::AllMids { mids }, &mut s, &u, &native);
    assert_eq!(s.mids.get("BTC"), Some(&Decimal::new(12345, 2)));

    let ctx = AssetContext {
        funding: Some(r(0.01)),
        open_interest: None,
        mark_px: Some(r(5.0)),
        oracle_px: None,
        prev_day_px: Some(r(4.0)),
    };
    handle_message(Incoming::ActiveAssetCtx { coin: "SOL".into(), ctx }, &mut s, &u, &native);
    let c = s.asset_ctx.get("SOL").unwrap();
    assert_eq!((f(c.funding_rate), f(c.open_interest), f(c.mark_px)), (0.01, 0.0, 5.0));
    handle_message(Incoming::ActiveAssetCtx { coin: "DOGE".into(), ctx }, &mut s, &u, &native);
    assert!(s.asset_ctx.get("DOGE").is_none());
    handle_message(Incoming::Other, &mut s, &u, &native);
}

#[test]
fn histories_are_loaded() {
    let mut s = DataStore::new(3);
    let c: Vec<Candle> = (0..5).map(|i| candle("BTC", "1h", i, 10.0 + i as f64)).collect();
    load_candles(&mut s, "BTC", "1h", &c, &native);
    let rets: Vec<f64> = s.log_returns("BTC", "1h").into_iter().map(f).collect();
    assert_eq!(
        rets,
        vec![(12.0f64 / 11.0).ln(), (13.0f64 / 12.0).ln(), (14.0f64 / 13.0).ln()]
    );
    load_funding(
        &mut s,
        "BTC",
        &[FundingRate { time: 3, funding_rate: Some(r(0.5)), premium: None }],
    );
    let d = s.funding.get("BTC").unwrap();
    assert_eq!((d.len(), d[0].time, f(d[0].rate), f(d[0].premium)), (1, 3, 0.5, 0.0));
    assert_eq!(history_start(10 * 86_400_000, 7), 3 * 86_400_000);
    assert_eq!(intervals(), vec!["1m", "5m", "1h", "1d"]);
}

#[test]
fn feeds_cover_all_assets() {
    let u = universe();
    let s = subscriptions(&u);
    assert_eq!(s.len(), 36);
    assert!(matches!(&s[5], Subscription::Trades { coin } if coin == "ETH"));
    assert!(matches!(&s[8], Subscription::Candle { coin, interval } if coin == "ETH" && interval == "5m"));
    assert!(matches!(s[35], Subscription::AllMids));
}

fn settings() -> Settings {
    Settings {
        private_key: Some("k".into()),
        wallet_address: Some("w".into()),
        use_testnet: Setting::Malformed,
        max_portfolio_leverage: Setting::Missing,
        max_single_asset_weight: Setting::Missing,
        daily_drawdown_limit: Setting::Missing,
        target_daily_vol: Setting::Missing,
        kelly_fraction: Setting::Given(r(0.9)),
        hmm_states: Setting::Missing,
        gb_n_estimators: Setting::Given(7),
        gb_learning_rate: Setting::Missing,
        gb_max_depth: Setting::Missing,
        history_days: Setting::Missing,
        max_combo_assets: Setting::Missing,
        max_combo_tc_bps: Setting::Missing,
        enumerate_combo_subsets: Setting::Missing,
        signal_interval_secs: Setting::Missing,
    }
}

#[test]
fn configuration_has_defaults() {
    let c = Config::from_settings(settings()).unwrap();
    assert_eq!((c.private_key.as_str(), c.wallet_address.as_str()), ("k", "w"));
    assert!(!c.use_testnet);
    assert_eq!(f(c.max_portfolio_leverage), 3.0);
    assert_eq!(f(c.max_single_asset_weight), 0.30);
    assert_eq!(f(c.daily_drawdown_limit), 0.08);
    assert_eq!(f(c.target_daily_vol), 0.015);
    assert_eq!(f(c.kelly_fraction), 0.9);
    assert_eq!((c.hmm_states, c.gb_n_estimators, c.gb_max_depth), (4, 7, 3));
    assert_eq!(f(c.gb_learning_rate), 0.1);
    assert_eq!((c.history_days, c.signal_interval_secs), (180, 300));
    assert_eq!((c.max_combo_assets, c.enumerate_combo_subsets), (3, true));
    assert_eq!(f(c.max_combo_tc_bps), 25.0);
}

#[test]
fn configuration_fails_on_bad_variables() {
    let mut s = settings();
    s.private_key = None;
    assert_eq!(Config::from_settings(s).unwrap_err(), ConfigError::NotSet(Variable::PrivateKey));
    let mut s = settings();
    s.wallet_address = None;
    assert_eq!(Config::from_settings(s).unwrap_err(), ConfigError::NotSet(Variable::WalletAddress));
    let mut s = settings();
    s.hmm_states = Setting::Malformed;
    s.signal_interval_secs = Setting::Malformed;
    assert_eq!(Config::from_settings(s).unwrap_err(), ConfigError::Malformed(Variable::HmmStates));
}
