//! Kelly optimization and subset selection.
use quant_trader::ensemble::EnsembleDistribution;
use quant_trader::num::Real;
use quant_trader::optimizer::kelly::{AssetCandidate, KellyOptimizer};
use quant_trader::optimizer::subsets::enumerate_combinations;
use quant_trader::optimizer::{
    AssetDistribution, ComboConfig, PortfolioConstraints, PortfolioOptimizer,
};
use quant_trader::risk::manager::{PortfolioState, Position};
use quant_trader::signals::generator::Direction;

fn r(x: f64) -> Real {
    Real::from_bits(x.to_bits())
}

fn f(x: Real) -> f64 {
    f64::from_bits(x.bits)
}

fn make_dist(p_up: f64, p_down: f64, mu: f64, sigma: f64) -> EnsembleDistribution {
    EnsembleDistribution {
        p_up: r(p_up),
        p_down: r(p_down),
        predictive_mean: r(mu),
        predictive_std: r(sigma),
        confidence: r(0.7),
        weights: vec![],
    }
}

fn make_asset_dist(asset: &str, mu: f64, sigma: f64, tc_bps: f64) -> AssetDistribution {
    AssetDistribution {
        asset: asset.to_string(),
        ensemble: make_dist(
            if mu > 0.0 { 0.6 } else { 0.2 },
            if mu < 0.0 { 0.6 } else { 0.2 },
            mu,
            sigma,
        ),
        current_fraction: r(0.0),
        entry_price: r(100.0),
        estimated_tc_bps: r(tc_bps),
    }
}

fn default_constraints() -> PortfolioConstraints {
    PortfolioConstraints::from_risk_config(r(3.0), r(0.30), r(0.5))
}

#[test]
fn kelly_long_for_positive_drift() {
    let constraints = default_constraints();
    let dist = make_dist(0.6, 0.2, 0.005, 0.01);
    let (x, elg) = KellyOptimizer::optimize_single(&dist, r(0.0), &constraints);
    assert!(f(x) > 0.0, "Expected long position, got f={}", f(x));
    assert!(f(elg) > 0.0, "Expected positive ELG, got {}", f(elg));
}

#[test]
fn kelly_short_for_negative_drift() {
    let constraints = default_constraints();
    let dist = make_dist(0.2, 0.6, -0.005, 0.01);
    let (x, _) = KellyOptimizer::optimize_single(&dist, r(0.0), &constraints);
    assert!(f(x) < 0.0, "Expected short position, got f={}", f(x));
}

#[test]
fn gross_exposure_capped() {
    let constraints = default_constraints();
    let opt = KellyOptimizer::new();
    let portfolio = PortfolioState::new(r(10_000.0));

    let mut dists = Vec::new();
    for sym in ["BTC", "ETH", "SOL", "BNB", "DOGE"] {
        dists.push((sym.to_string(), make_dist(0.7, 0.1, 0.01, 0.01)));
    }
    let decisions = opt.optimize(&dists, &portfolio, &constraints);
    assert_eq!(decisions.len(), 5);
    let gross: f64 = decisions.iter().map(|d| f(d.position_fraction)).sum();
    assert!(
        gross <= f(constraints.max_gross_exposure) + 1e-9,
        "gross={} exceeds limit={}",
        gross,
        f(constraints.max_gross_exposure)
    );
}

#[test]
fn combo_selects_best_subset() {
    let opt = KellyOptimizer::new();
    let portfolio = PortfolioState::new(r(100_000.0));
    let constraints = default_constraints();
    let combo_config =
        ComboConfig { max_assets: 2, max_total_tc_bps: r(100.0), ..Default::default() };

    let asset_dists = vec![
        make_asset_dist("BTC", 0.01, 0.01, 5.0),
        make_asset_dist("ETH", -0.01, 0.01, 5.0),
        make_asset_dist("SOL", 0.001, 0.05, 5.0),
    ];

    let combo = opt
        .optimize_combo(&asset_dists, &portfolio, &constraints, &combo_config, 17)
        .expect("Expected combo order");

    assert!(combo.n_legs() <= 2, "Should have at most 2 legs");
    let assets: Vec<&str> = combo.legs.iter().map(|l| l.asset.as_str()).collect();
    assert!(
        assets.contains(&"BTC") && assets.contains(&"ETH"),
        "Expected BTC and ETH in combo, got {:?}",
        assets
    );
    let btc_leg = combo.legs.iter().find(|l| l.asset == "BTC").unwrap();
    let eth_leg = combo.legs.iter().find(|l| l.asset == "ETH").unwrap();
    assert!(btc_leg.is_long(), "BTC with positive drift should be long");
    assert!(!eth_leg.is_long(), "ETH with negative drift should be short");
    assert_eq!(combo.generated_at_ms, 17);
}

#[test]
fn combo_enforces_tc_budget() {
    let opt = KellyOptimizer::new();
    let portfolio = PortfolioState::new(r(100_000.0));
    let constraints = default_constraints();
    let combo_config = ComboConfig {
        max_assets: 3,
        max_total_tc_bps: r(3.0),
        max_traded_assets: 3,
        min_leg_elg: r(0.0),
        enumerate_subsets: true,
    };

    let asset_dists = vec![
        make_asset_dist("BTC", 0.01, 0.01, 10.0),
        make_asset_dist("ETH", 0.009, 0.01, 10.0),
        make_asset_dist("SOL", 0.008, 0.01, 10.0),
    ];

    let combo = opt
        .optimize_combo(&asset_dists, &portfolio, &constraints, &combo_config, 0)
        .expect("Expected at least one leg");

    assert!(
        combo.n_legs() <= 1,
        "TC budget should limit to 1 leg, got {} legs (total_tc={:.2})",
        combo.n_legs(),
        f(combo.total_tc_bps)
    );
    assert!(
        f(combo.total_tc_bps) <= 3.0 + 1e-9,
        "Total TC {:.2} exceeds budget 3.0",
        f(combo.total_tc_bps)
    );
}

#[test]
fn combo_respects_cardinality() {
    let opt = KellyOptimizer::new();
    let portfolio = PortfolioState::new(r(100_000.0));
    let constraints = default_constraints();
    let combo_config =
        ComboConfig { max_assets: 2, max_total_tc_bps: r(1000.0), ..Default::default() };

    let asset_dists: Vec<AssetDistribution> = ["BTC", "ETH", "SOL", "BNB"]
        .iter()
        .map(|&s| make_asset_dist(s, 0.005, 0.01, 1.0))
        .collect();

    let combo = opt
        .optimize_combo(&asset_dists, &portfolio, &constraints, &combo_config, 0)
        .expect("Expected combo order");

    assert!(
        combo.n_legs() <= 2,
        "Cardinality limit of 2 violated: got {} legs",
        combo.n_legs()
    );
}

#[test]
fn combo_net_exposure_bounded() {
    let opt = KellyOptimizer::new();
    let portfolio = PortfolioState::new(r(100_000.0));
    let constraints = default_constraints();
    let combo_config =
        ComboConfig { max_assets: 5, max_total_tc_bps: r(1000.0), ..Default::default() };

    let asset_dists: Vec<AssetDistribution> = ["A", "B", "C", "D", "E"]
        .iter()
        .map(|&s| make_asset_dist(s, 0.02, 0.005, 1.0))
        .collect();

    let combo = opt
        .optimize_combo(&asset_dists, &portfolio, &constraints, &combo_config, 0)
        .expect("Expected combo");

    assert!(
        f(combo.net_exposure_fraction).abs() <= f(constraints.max_net_exposure) + 1e-9,
        "net_exposure={:.3} exceeds max={:.3}",
        f(combo.net_exposure_fraction),
        f(constraints.max_net_exposure)
    );
    assert!(
        f(combo.gross_exposure_fraction) <= f(constraints.max_gross_exposure) + 1e-9,
        "gross_exposure={:.3} exceeds max={:.3}",
        f(combo.gross_exposure_fraction),
        f(constraints.max_gross_exposure)
    );
}

#[test]
fn single_fraction_is_exact() {
    let c = default_constraints();
    for (mu, sigma, cur) in [(0.001, 0.05, 0.1), (-0.0004, 0.03, 0.0), (0.0, 0.0, 0.2)] {
        let dist = make_dist(0.6, 0.2, mu, sigma);
        let s2 = sigma * sigma;
        let denom: f64 = s2 + mu * mu;
        let full: f64 = if denom > 1e-15 { mu / denom } else { 0.0 };
        let k = 0.5 * full;
        let adj: f64 = k - 0.001 * (k - cur).signum() * (5.0 * 1e-4);
        let want = adj.clamp(-0.3, 0.3);
        let elg = want * mu - 0.5 * want * want * (s2 + mu * mu);
        let (x, e) = KellyOptimizer::optimize_single(&dist, r(cur), &c);
        assert_eq!(f(x), want);
        assert_eq!(f(e), elg);
    }
}

#[test]
fn combinations_are_listed_in_order() {
    assert_eq!(
        enumerate_combinations(4, 2),
        vec![vec![0, 1], vec![0, 2], vec![0, 3], vec![1, 2], vec![1, 3], vec![2, 3]]
    );
    assert_eq!(enumerate_combinations(3, 3), vec![vec![0, 1, 2]]);
    assert_eq!(enumerate_combinations(3, 0), vec![Vec::<usize>::new()]);
    assert_eq!(enumerate_combinations(2, 3), Vec::<Vec<usize>>::new());
    assert_eq!(enumerate_combinations(0, 1), Vec::<Vec<usize>>::new());
    assert_eq!(enumerate_combinations(10, 3).len(), 120);
}

fn candidate(place: usize, elg: f64, tc: f64) -> AssetCandidate {
    AssetCandidate { place, f: r(0.1), elg: r(elg), tc_bps: r(tc) }
}

#[test]
fn exhaustive_search_beats_greedy() {
    let cands = vec![candidate(0, 0.010, 2.0), candidate(1, 0.008, 1.5), candidate(2, 0.007, 1.5)];
    assert_eq!(KellyOptimizer::best_subset_exhaustive(&cands, 2, r(3.0)), vec![1, 2]);
    assert_eq!(KellyOptimizer::greedy_select(&cands, 2, r(3.0)), vec![0]);
    assert_eq!(KellyOptimizer::greedy_select(&cands, 3, r(3.5)), vec![0, 1]);
    assert_eq!(KellyOptimizer::best_subset_exhaustive(&cands, 0, r(3.0)), Vec::<usize>::new());
    assert_eq!(KellyOptimizer::best_subset_exhaustive(&cands, 3, r(1.0)), Vec::<usize>::new());
    assert_eq!(f(cands[0].net_score()), 0.010 - 2.0 * 1e-4);
}

#[test]
fn legs_are_exact() {
    let opt = KellyOptimizer::new();
    let c = default_constraints();
    let cfg = ComboConfig::default();
    let d = vec![make_asset_dist("BTC", 0.01, 0.01, 5.0)];
    let combo = opt.build_combo(&d, r(50_000.0), &c, &cfg, "id".to_string(), 5).unwrap();
    assert_eq!(combo.combo_id, "id");
    let leg = &combo.legs[0];
    assert_eq!(f(leg.position_fraction), 0.3);
    assert_eq!(f(leg.position_size_usd), 50_000.0 * 0.3);
    assert_eq!(f(leg.leverage), 1.0);
    assert_eq!(f(leg.stop_loss), 100.0 - 2.0 * 0.01 * 100.0);
    assert_eq!(f(leg.take_profit), 100.0 + 2.0 * 0.01 * 100.0 * 2.0);
    assert_eq!(leg.regime_label, "trending");
    assert_eq!(f(leg.leg_tc_bps), 0.3 * 5.0);
    assert_eq!(f(combo.total_tc_bps), 0.3 * 5.0);
    assert_eq!(f(combo.gross_exposure_fraction), 0.3);
    assert_eq!(f(combo.net_exposure_fraction), 0.3);
}

#[test]
fn nothing_to_trade_gives_no_order() {
    let opt = KellyOptimizer::new();
    let c = default_constraints();
    let cfg = ComboConfig::default();
    let p = PortfolioState::new(r(100_000.0));
    assert!(opt.optimize_combo(&[], &p, &c, &cfg, 0).is_none());
    let poor = PortfolioState::new(r(0.5));
    let d = vec![make_asset_dist("BTC", 0.01, 0.01, 5.0)];
    assert!(opt.optimize_combo(&d, &poor, &c, &cfg, 0).is_none());
    let mut unsure = vec![make_asset_dist("BTC", 0.01, 0.01, 5.0)];
    unsure[0].ensemble.confidence = r(0.5);
    assert!(opt.optimize_combo(&unsure, &p, &c, &cfg, 0).is_none());
    let mut none = cfg;
    none.max_assets = 0;
    assert!(opt.optimize_combo(&d, &p, &c, &none, 0).is_none());
    none.max_assets = 3;
    none.max_traded_assets = 0;
    assert!(opt.optimize_combo(&d, &p, &c, &none, 0).is_none());
}

#[test]
fn orders_have_fresh_identifiers() {
    let opt = KellyOptimizer::new();
    let c = default_constraints();
    let cfg = ComboConfig::default();
    let p = PortfolioState::new(r(100_000.0));
    let d = vec![make_asset_dist("BTC", 0.01, 0.01, 5.0)];
    let a = opt.optimize_combo(&d, &p, &c, &cfg, 0).unwrap().combo_id;
    let b = opt.optimize_combo(&d, &p, &c, &cfg, 0).unwrap().combo_id;
    for id in [&a, &b] {
        let c: Vec<char> = id.chars().collect();
        assert_eq!(c.len(), 36);
        for (i, x) in c.iter().enumerate() {
            if [8, 13, 18, 23].contains(&i) {
                assert_eq!(*x, '-');
            } else {
                assert!(x.is_ascii_digit() || ('a'..='f').contains(x));
            }
        }
        assert_eq!(c[14], '4');
        assert!(['8', '9', 'a', 'b'].contains(&c[19]));
    }
    assert_ne!(a, b);
}

/// Backward induction on machine numbers.
fn dp_reference(mu: f64, sigma: f64, cur: f64, c: &PortfolioConstraints, horizon: usize) -> f64 {
    let s2 = sigma * sigma;
    let single = |cur: f64| {
        let denom: f64 = s2 + mu * mu;
        let full = if denom > 1e-15 { mu / denom } else { 0.0 };
        let k = f(c.kelly_fraction) * full;
        let tc = f(c.transaction_cost_bps) * 1e-4;
        let adj = k - f(c.turnover_penalty) * (k - cur).signum() * tc;
        let x = adj.clamp(-f(c.max_position_fraction), f(c.max_position_fraction));
        (x, x * mu - 0.5 * x * x * (s2 + mu * mu))
    };
    if horizon <= 1 {
        return single(cur).0;
    }
    let fmax = f(c.max_position_fraction);
    let pen = f(c.turnover_penalty);
    let grid: Vec<f64> = (0..41).map(|i| -fmax + 2.0 * fmax * i as f64 / 40.0).collect();
    let mut v: Vec<f64> = grid
        .iter()
        .map(|&x| {
            let (o, e) = single(x);
            e - pen * (o - x).abs()
        })
        .collect();
    let value = |from: f64, to: f64, next: f64| {
        to * mu - 0.5 * to * to * (s2 + mu * mu) - pen * (to - from).abs() + next
    };
    for _ in 1..horizon {
        v = grid
            .iter()
            .map(|&x| {
                grid.iter()
                    .zip(&v)
                    .map(|(&y, &n)| value(x, y, n))
                    .fold(f64::NEG_INFINITY, f64::max)
            })
            .collect();
    }
    let at = ((cur + fmax) / (2.0 * fmax) * 40.0).round().clamp(0.0, 40.0) as usize;
    grid.iter()
        .zip(&v)
        .map(|(&y, &n)| (y, value(grid[at], y, n)))
        .max_by(|a, b| a.1.partial_cmp(&b.1).unwrap())
        .map(|(y, _)| y)
        .unwrap()
}

#[test]
fn backward_induction_is_exact() {
    let c = default_constraints();
    for (mu, sigma, cur) in [(0.002, 0.05, 0.1), (-0.001, 0.04, -0.25), (0.0003, 0.06, 0.0)] {
        for horizon in [0, 1, 2, 5] {
            let dist = make_dist(0.6, 0.2, mu, sigma);
            let got = KellyOptimizer::dp_optimal_fraction(&dist, r(cur), &c, horizon);
            assert_eq!(f(got), dp_reference(mu, sigma, cur, &c, horizon));
        }
    }
}

#[test]
fn decisions_are_sorted_by_growth() {
    let c = default_constraints();
    let opt = KellyOptimizer::new();
    let mut p = PortfolioState::new(r(1_000.0));
    p.open_position(Position {
        asset: "B".into(),
        direction: Direction::Short,
        entry_price: r(10.0),
        size_usd: r(100.0),
        leverage: r(1.0),
        stop_loss: r(11.0),
        take_profit: r(8.0),
        open_time_ms: 0,
        oid: None,
        sl_oid: None,
        tp_oid: None,
    });
    let d = vec![
        ("A".to_string(), make_dist(0.6, 0.2, 0.001, 0.05)),
        ("B".to_string(), make_dist(0.7, 0.1, 0.004, 0.03)),
        ("C".to_string(), make_dist(0.41, 0.4, 0.004, 0.03)),
    ];
    let got = opt.optimize(&d, &p, &c);
    let names: Vec<&str> = got.iter().map(|x| x.asset.as_str()).collect();
    assert_eq!(names, vec!["B", "A"]);
    assert!(got[0].expected_log_growth > got[1].expected_log_growth);
    assert!(got[0].is_long());
    let multi = opt.optimize_dp(&d, &p, &c, 3);
    assert_eq!(multi.len(), 2);
    assert!(opt.optimize(&d, &PortfolioState::new(r(0.0)), &c).is_empty());
}

#[test]
fn small_orders_are_not_scaled() {
    let mut c = default_constraints();
    c.kelly_fraction = r(0.001);
    let dists = vec![
        make_asset_dist("BTC", 0.01, 0.01, 5.0),
        make_asset_dist("ETH", -0.01, 0.01, 5.0),
    ];
    let cfg = ComboConfig { max_assets: 2, max_total_tc_bps: r(1000.0), ..Default::default() };
    let p = PortfolioState::new(r(100_000.0));
    let combo = KellyOptimizer::new().optimize_combo(&dists, &p, &c, &cfg, 0).unwrap();
    assert_eq!(combo.n_legs(), 2);
    let (a, _) = KellyOptimizer::optimize_single_dist(&dists[0], &c);
    let (b, _) = KellyOptimizer::optimize_single_dist(&dists[1], &c);
    assert_eq!(f(combo.gross_exposure_fraction), f(a).abs() + f(b).abs());
    assert_eq!(f(combo.net_exposure_fraction), f(a) + f(b));
    assert!(f(combo.gross_exposure_fraction) <= f(c.max_gross_exposure));
}

#[test]
fn decisions_over_a_horizon_keep_the_exposure() {
    let c = default_constraints();
    let p = PortfolioState::new(r(10_000.0));
    let dists: Vec<(String, EnsembleDistribution)> = (0..14)
        .map(|i| (format!("A{}", i), make_dist(0.7, 0.1, 0.01 + 0.0001 * i as f64, 0.01)))
        .collect();
    for horizon in [1usize, 3] {
        let d = KellyOptimizer::new().optimize_dp(&dists, &p, &c, horizon);
        assert_eq!(d.len(), 14);
        let gross: f64 = d.iter().map(|x| f(x.position_fraction)).sum();
        assert!(gross <= f(c.max_gross_exposure) + 1e-12);
        assert!(gross <= f(c.max_net_exposure) + 1e-12);
        assert!(d.iter().all(|x| f(x.position_fraction) <= f(c.max_position_fraction)));
        assert!(d.iter().all(|x| f(x.leverage) >= 1.0));
    }
}

#[test]
fn empty_limits_do_not_matter_where_nothing_is_sized() {
    let opt = KellyOptimizer::new();
    let cfg = ComboConfig::default();
    let c = PortfolioConstraints::from_risk_config(r(0.5), r(-1.0), r(0.3));
    let p = PortfolioState::new(r(100_000.0));
    assert!(opt.optimize_combo(&[], &p, &c, &cfg, 0).is_none());
    assert!(opt.optimize(&[], &p, &c).is_empty());
    let poor = PortfolioState::new(r(0.5));
    let d = vec![make_asset_dist("BTC", 0.01, 0.01, 5.0)];
    assert!(opt.optimize_combo(&d, &poor, &c, &cfg, 0).is_none());
    let mut unsure = vec![make_asset_dist("BTC", 0.01, 0.01, 5.0)];
    unsure[0].ensemble.confidence = r(0.5);
    assert!(opt.optimize_combo(&unsure, &p, &c, &cfg, 0).is_none());
    let named = vec![("BTC".to_string(), make_dist(0.5, 0.5, 0.0, 0.01))];
    assert!(opt.optimize(&named, &p, &c).is_empty());
}
