//! The walk-forward engine.
use vstd::prelude::*;

use crate::backtest::metrics::{
    compute_fold_metrics, metrics_of, BacktestResult, FoldResult, SimulatedTrade,
};
use crate::backtest::pipeline::{fused_after, learnt_after, unlearnt, Estimators, Learnt};
use crate::ensemble::distribution::EnsembleDistribution;
use crate::ensemble::fusion::Mixture;
use crate::estimation::posterior::Observation;
use crate::execution::model::{
    assessment, default_impact, ExecutionModel, ImpactParams, Offer,
};
use crate::num::elementary::{is_function, ln, ln_of, oracle, Elementary, Oracle};
use crate::num::series::tally;
use crate::num::Real;
use crate::optimizer::kelly::{bp, fraction_at, KellyOptimizer};
use crate::optimizer::types::{constraints_of, PortfolioConstraints};
use crate::risk::limits::RiskLimits;
use crate::signals::generator::Direction;

verus! {

/// Walk-forward configuration.
#[derive(Debug, Clone, Copy)]
pub struct WalkForwardConfig {
    /// Bars per training window.
    pub train_bars: usize,
    /// Bars per test window.
    pub test_bars: usize,
    /// Most folds to run; zero for all that the data holds.
    pub max_folds: usize,
    /// Initial net asset value.
    pub initial_nav: Real,
    /// Apply the execution model.
    pub simulate_execution: bool,
    /// Daily volume for market impact.
    pub adv_24h_usd: Real,
}

impl Default for WalkForwardConfig {
    fn default() -> (r: Self)
        ensures
            r == (WalkForwardConfig {
                train_bars: 500,
                test_bars: 100,
                max_folds: 0,
                initial_nav: Real::whole(10_000),
                simulate_execution: true,
                adv_24h_usd: Real::whole(100_000_000),
            }),
    {
        Self {
            train_bars: 500,
            test_bars: 100,
            max_folds: 0,
            initial_nav: Real::whole(10_000),
            simulate_execution: true,
            adv_24h_usd: Real::whole(100_000_000),
        }
    }
}

/// The walk-forward engine: replays bars through estimation, fusion, sizing, risk
/// checks and simulated execution.
#[derive(Debug, Clone, Copy)]
pub struct BacktestEngine {
    pub config: WalkForwardConfig,
    pub exec_model: ExecutionModel,
    pub risk_limits: RiskLimits,
}

/// A bar of history.
#[derive(Debug, Clone, Copy)]
pub struct BacktestBar {
    pub timestamp_ms: u64,
    pub open: Real,
    pub high: Real,
    pub low: Real,
    pub close: Real,
    pub volume: Real,
    /// Estimated spread as a fraction of the mid price.
    pub spread_pct: Real,
    /// Depth near the mid price.
    pub book_depth_usd: Real,
}

impl BacktestBar {
    /// The log return from the previous close; zero where there is none.
    pub open spec fn return_from(&self, prev_close: Real, f: Oracle) -> Real {
        if prev_close > Real::ratio(1, 10_000_000_000) {
            ln_of(f, self.close / prev_close)
        } else {
            Real::whole(0)
        }
    }

    /// The log return from the previous close; zero where there is none.
    pub fn log_return<M: Fn(Elementary) -> Real>(&self, prev_close: Real, math: &M) -> (r: Real)
        requires
            is_function(*math),
        ensures
            r == self.return_from(prev_close, oracle(*math)),
    {
        if prev_close > Real::ratio(1, 10_000_000_000) {
            ln(math, self.close / prev_close)
        } else {
            Real::whole(0)
        }
    }
}

/// The bars of one asset.
#[derive(Debug)]
pub struct Series {
    pub asset: String,
    pub bars: Vec<BacktestBar>,
}

/// A simulated open position.
#[derive(Debug, Clone, Copy)]
pub struct OpenPosition {
    /// Place of the asset's series.
    pub place: usize,
    pub entry_bar: usize,
    pub entry_price: Real,
    pub is_long: bool,
    /// The size that was filled.
    pub size_usd: Real,
    pub leverage: Real,
    /// The filled fraction of what was asked for.
    pub fill_fraction: Real,
}

/// The price at which a bar is bought (`true`) or sold (`false`): half the spread
/// away from the close.
pub open spec fn dealt_price(bar: BacktestBar, buy: bool) -> Real {
    let half = bar.spread_pct * Real::ratio(1, 2);
    if buy {
        bar.close * (Real::whole(1) + half)
    } else {
        bar.close * (Real::whole(1) - half)
    }
}

fn deal(bar: &BacktestBar, buy: bool) -> (r: Real)
    ensures
        r == dealt_price(*bar, buy),
{
    if buy {
        bar.close * (Real::whole(1) + bar.spread_pct * Real::ratio(1, 2))
    } else {
        bar.close * (Real::whole(1) - bar.spread_pct * Real::ratio(1, 2))
    }
}

/// The trade that closing a position at a bar makes.
pub open spec fn closed_trade(bars: Seq<Series>, p: OpenPosition, at: int) -> SimulatedTrade {
    let bar = bars[p.place as int].bars@[at];
    let exit = dealt_price(bar, !p.is_long);
    let ret = if p.is_long {
        (exit - p.entry_price) / p.entry_price
    } else {
        (p.entry_price - exit) / p.entry_price
    };
    SimulatedTrade {
        asset: bars[p.place as int].asset,
        entry_bar: p.entry_bar,
        exit_bar: at as usize,
        direction: p.is_long,
        entry_price: p.entry_price,
        exit_price: exit,
        size_usd: p.size_usd,
        leverage: p.leverage,
        realized_pnl: p.size_usd * ret * p.leverage,
        transaction_cost_usd: p.size_usd * bar.spread_pct,
        fill_fraction: p.fill_fraction,
    }
}

/// The trades that closing the positions at a bar makes.
pub open spec fn closed_trades(
    bars: Seq<Series>,
    open: Seq<OpenPosition>,
    at: int,
) -> Seq<SimulatedTrade> {
    open.map_values(|p: OpenPosition| closed_trade(bars, p, at))
}

/// The profits of trades, net of costs.
pub open spec fn net_profits(trades: Seq<SimulatedTrade>) -> Seq<Real> {
    trades.map_values(|t: SimulatedTrade| t.realized_pnl - t.transaction_cost_usd)
}

/// The fraction of the net asset value that the optimizer gives to an asset, from
/// no position and under the constraints that the limits imply; negative for a
/// short position. A weight limit that leaves nothing to choose from gives none.
pub open spec fn entry_fraction(limits: RiskLimits, m: Mixture) -> Real {
    let c = constraints_of(
        limits.max_leverage,
        limits.max_single_asset_weight,
        limits.kelly_fraction,
    );
    if c.bounds_positions() {
        fraction_at(m.mean, m.std * m.std, Real::whole(0), c.transaction_cost_bps, c)
    } else {
        Real::whole(0)
    }
}

/// A distribution is traded: it is confident, has an edge, and the optimizer gives
/// it a fraction that is not negligible.
pub open spec fn is_traded(m: Mixture, fraction: Real) -> bool {
    &&& m.confidence > Real::ratio(55, 100)
    &&& !((m.p_up - m.p_down).abs() < Real::ratio(1, 10))
    &&& !(fraction.abs() < bp())
}

/// How a position is entered: its price, the size and the fraction that are filled,
/// and what the entry costs.
#[derive(Debug, Clone, Copy)]
pub struct Entry {
    pub price: Real,
    pub filled_usd: Real,
    pub fill_fraction: Real,
    pub cost: Real,
}

/// The entry of a position at a bar, if it is worth it. With execution simulated
/// the model decides on it: spread and permanent impact move the price, the fill
/// is partial, and the temporary impact is paid on top of half the spread. Without,
/// the position is filled whole at half the spread.
pub open spec fn entry_at(
    f: Oracle,
    engine: BacktestEngine,
    bar: BacktestBar,
    edge: Real,
    is_long: bool,
    size: Real,
    leverage: Real,
) -> Option<Entry> {
    let half = Real::ratio(1, 2);
    let offer = Offer {
        generated_at_ms: bar.timestamp_ms,
        direction: if is_long {
            Direction::Long
        } else {
            Direction::Short
        },
        entry_price: bar.close,
        position_size_usd: size,
        leverage,
        directional_edge: edge,
    };
    let m = assessment(
        f,
        engine.exec_model,
        offer,
        bar.timestamp_ms,
        engine.config.adv_24h_usd,
        bar.spread_pct,
        bar.book_depth_usd,
    );
    if !engine.config.simulate_execution {
        Some(
            Entry {
                price: dealt_price(bar, is_long),
                filled_usd: size,
                fill_fraction: Real::whole(1),
                cost: size * (bar.spread_pct * half),
            },
        )
    } else if m.is_executable {
        Some(
            Entry {
                price: m.adjusted_entry_price,
                filled_usd: m.expected_fill_usd,
                fill_fraction: m.fill_probability,
                cost: m.expected_fill_usd * (bar.spread_pct * half + m.temporary_impact_pct),
            },
        )
    } else {
        None
    }
}

/// Positions opened so far in a bar, their notional with leverage, and the bar's
/// profit so far.
pub struct Opening {
    pub open: Seq<OpenPosition>,
    pub gross: Real,
    pub pnl: Real,
}

/// A new position passes the risk checks: drawdown, confidence, number of
/// positions and leverage are within the limits. Its weight is by its size.
pub open spec fn within_limits(
    limits: RiskLimits,
    m: Mixture,
    nav: Real,
    drawdown: Real,
    o: Opening,
    notional: Real,
) -> bool {
    &&& !(drawdown > limits.max_daily_drawdown)
    &&& !(m.confidence < limits.min_signal_confidence)
    &&& o.open.len() < limits.max_concurrent_positions
    &&& !((o.gross + notional) / nav.max(Real::whole(1)) > limits.max_gross_exposure)
}

/// The openings of a bar after one more asset: a traded distribution opens the
/// position that the optimizer gives it, where the risk checks pass and the entry is
/// worth it.
pub open spec fn opening_after(
    f: Oracle,
    engine: BacktestEngine,
    bars: Seq<Series>,
    m: Mixture,
    place: int,
    at: int,
    nav: Real,
    drawdown: Real,
    o: Opening,
) -> Opening {
    let limits = engine.risk_limits;
    let edge = m.p_up - m.p_down;
    let bar = bars[place].bars@[at];
    let fraction = entry_fraction(limits, m);
    let is_long = fraction > Real::whole(0);
    let size = nav * fraction.abs();
    let leverage = Real::whole(1).min(limits.max_leverage);
    if !is_traded(m, fraction) || !within_limits(limits, m, nav, drawdown, o, size * leverage) {
        o
    } else {
        match entry_at(f, engine, bar, edge, is_long, size, leverage) {
            Some(e) => Opening {
                open: o.open.push(
                    OpenPosition {
                        place: place as usize,
                        entry_bar: at as usize,
                        entry_price: e.price,
                        is_long,
                        size_usd: e.filled_usd,
                        leverage,
                        fill_fraction: e.fill_fraction,
                    },
                ),
                gross: o.gross + e.filled_usd * leverage,
                pnl: o.pnl - e.cost,
            },
            None => o,
        }
    }
}

/// The openings of a bar over the first `n` assets.
pub open spec fn openings(
    f: Oracle,
    engine: BacktestEngine,
    bars: Seq<Series>,
    ms: Seq<Mixture>,
    n: nat,
    at: int,
    nav: Real,
    drawdown: Real,
    pnl: Real,
) -> Opening
    decreases n,
{
    if n == 0 {
        Opening { open: Seq::empty(), gross: Real::whole(0), pnl }
    } else {
        opening_after(
            f,
            engine,
            bars,
            ms[n - 1],
            n - 1,
            at,
            nav,
            drawdown,
            openings(f, engine, bars, ms, (n - 1) as nat, at, nav, drawdown, pnl),
        )
    }
}

/// What one asset's estimators have learnt from the bars `from .. to`.
pub open spec fn trained(f: Oracle, bars: Seq<BacktestBar>, from: int, to: int) -> Learnt
    decreases to - from,
{
    if to <= from {
        unlearnt(f)
    } else {
        learnt_after(f, trained(f, bars, from, to - 1), bars[to - 1].close)
    }
}

/// State of a fold's simulation.
pub struct Simulation {
    pub nav: Real,
    pub peak_nav: Real,
    pub max_drawdown: Real,
    pub pnls: Seq<Real>,
    pub trades: Seq<SimulatedTrade>,
    pub open: Seq<OpenPosition>,
}

/// The fused distributions of all assets at a bar, for estimators that were
/// trained from `from` on.
pub open spec fn distributions_at(f: Oracle, bars: Seq<Series>, from: int, at: int) -> Seq<Mixture> {
    Seq::new(
        bars.len(),
        |i: int| fused_after(f, trained(f, bars[i].bars@, from, at), bars[i].bars@[at].close),
    )
}

/// The drawdown of a net asset value from its peak.
pub open spec fn drawdown_of(nav: Real, peak: Real) -> Real {
    (peak - nav) / peak.max(Real::whole(1))
}

/// The simulation after one more bar: open positions are closed, new ones
/// opened, and net asset value and drawdown updated.
pub open spec fn simulated_bar(
    f: Oracle,
    engine: BacktestEngine,
    bars: Seq<Series>,
    from: int,
    at: int,
    s: Simulation,
) -> Simulation {
    let closed = closed_trades(bars, s.open, at);
    let o = openings(
        f,
        engine,
        bars,
        distributions_at(f, bars, from, at),
        bars.len(),
        at,
        s.nav,
        drawdown_of(s.nav, s.peak_nav),
        tally(net_profits(closed)),
    );
    let nav = s.nav + o.pnl;
    let peak = if nav > s.peak_nav {
        nav
    } else {
        s.peak_nav
    };
    let dd = drawdown_of(nav, peak);
    Simulation {
        nav,
        peak_nav: peak,
        max_drawdown: if dd > s.max_drawdown {
            dd
        } else {
            s.max_drawdown
        },
        pnls: s.pnls.push(o.pnl),
        trades: s.trades + closed,
        open: o.open,
    }
}

/// The simulation after the first `n` bars of a test window.
pub open spec fn simulation(
    f: Oracle,
    engine: BacktestEngine,
    bars: Seq<Series>,
    initial_nav: Real,
    from: int,
    test_start: int,
    n: nat,
) -> Simulation
    decreases n,
{
    if n == 0 {
        Simulation {
            nav: initial_nav,
            peak_nav: initial_nav,
            max_drawdown: Real::whole(0),
            pnls: Seq::empty(),
            trades: Seq::empty(),
            open: Seq::empty(),
        }
    } else {
        simulated_bar(
            f,
            engine,
            bars,
            from,
            test_start + n - 1,
            simulation(f, engine, bars, initial_nav, from, test_start, (n - 1) as nat),
        )
    }
}

/// The result of a fold.
pub open spec fn fold_of(
    f: Oracle,
    engine: BacktestEngine,
    bars: Seq<Series>,
    initial_nav: Real,
    fold_idx: usize,
    from: int,
    test_start: int,
    test_end: int,
) -> FoldResult {
    let s = simulation(
        f,
        engine,
        bars,
        initial_nav,
        from,
        test_start,
        (test_end - test_start) as nat,
    );
    metrics_of(fold_idx, s.pnls, s.trades, initial_nav, s.nav, s.max_drawdown)
}

/// The length of the shortest of the first `n` series; zero without series.
pub open spec fn shortest(bars: Seq<Series>, n: nat) -> nat
    decreases n,
{
    if n == 0 {
        0
    } else if n == 1 {
        bars[0].bars@.len()
    } else {
        let before = shortest(bars, (n - 1) as nat);
        if bars[n - 1].bars@.len() < before {
            bars[n - 1].bars@.len()
        } else {
            before
        }
    }
}

/// How many folds the data holds, within the configured limit.
pub open spec fn fold_count(config: WalkForwardConfig, bars: Seq<Series>) -> nat {
    let fold_size = (config.train_bars + config.test_bars) as nat;
    let available = shortest(bars, bars.len()) / fold_size;
    if config.max_folds == 0 || available < config.max_folds {
        available
    } else {
        config.max_folds as nat
    }
}

/// The bounds of a fold: start of training, start and end of testing.
pub open spec fn window_of(config: WalkForwardConfig, fold: nat) -> (int, int, int) {
    let from = fold * (config.train_bars + config.test_bars);
    (from, from + config.train_bars, from + config.train_bars + config.test_bars)
}

proof fn lemma_shortest(bars: Seq<Series>, n: nat)
    requires
        n <= bars.len(),
    ensures
        forall|i: int| 0 <= i < n ==> shortest(bars, n) <= (#[trigger] bars[i]).bars@.len(),
    decreases n,
{
    if n > 1 {
        lemma_shortest(bars, (n - 1) as nat);
    }
}

/// Every fold lies within the data of every asset.
pub proof fn folds_fit_data(config: WalkForwardConfig, bars: Seq<Series>, fold: nat)
    requires
        config.train_bars + config.test_bars > 0,
        fold < fold_count(config, bars),
    ensures
        window_of(config, fold).2 <= shortest(bars, bars.len()),
        forall|i: int|
            0 <= i < bars.len() ==> window_of(config, fold).2 <= (
            #[trigger] bars[i]).bars@.len(),
{
    let size = (config.train_bars + config.test_bars) as nat;
    let total = shortest(bars, bars.len());
    let available = total / size;
    vstd::arithmetic::div_mod::lemma_fundamental_div_mod(total as int, size as int);
    vstd::arithmetic::div_mod::lemma_mod_bound(total as int, size as int);
    assert(fold * size + size <= total) by (nonlinear_arith)
        requires
            fold + 1 <= available,
            total == size * available + total % size,
            0 <= total % size,
            size > 0,
    ;
    lemma_shortest(bars, bars.len());
}

/// Training comes before testing in every fold, and a later fold starts after an
/// earlier one has ended: no test window overlaps another window.
pub proof fn folds_are_disjoint(config: WalkForwardConfig, early: nat, late: nat)
    requires
        early < late,
    ensures
        window_of(config, early).0 <= window_of(config, early).1,
        window_of(config, early).1 <= window_of(config, early).2,
        window_of(config, early).2 <= window_of(config, late).0,
{
    let size = (config.train_bars + config.test_bars) as nat;
    assert(early * size + size <= late * size) by (nonlinear_arith)
        requires
            early + 1 <= late,
    ;
}

/// Two histories agree up to the bar `to`, from the bar `from` on.
pub open spec fn agree(a: Seq<Series>, b: Seq<Series>, from: int, to: int) -> bool {
    &&& a.len() == b.len()
    &&& forall|i: int| 0 <= i < a.len() ==> (#[trigger] a[i]).asset == b[i].asset
    &&& forall|i: int, t: int|
        0 <= i < a.len() && from <= t < to ==> #[trigger] a[i].bars@[t] == b[i].bars@[t]
}

proof fn lemma_trained_agrees(f: Oracle, a: Seq<BacktestBar>, b: Seq<BacktestBar>, from: int, to: int)
    requires
        forall|t: int| from <= t < to ==> #[trigger] a[t] == b[t],
    ensures
        trained(f, a, from, to) == trained(f, b, from, to),
    decreases to - from,
{
    if to > from {
        lemma_trained_agrees(f, a, b, from, to - 1);
        assert(a[to - 1] == b[to - 1]);
    }
}

proof fn lemma_openings_agree(
    f: Oracle,
    engine: BacktestEngine,
    a: Seq<Series>,
    b: Seq<Series>,
    ms: Seq<Mixture>,
    n: nat,
    at: int,
    nav: Real,
    drawdown: Real,
    pnl: Real,
)
    requires
        n <= a.len(),
        forall|i: int| 0 <= i < a.len() ==> #[trigger] a[i].bars@[at] == b[i].bars@[at],
    ensures
        openings(f, engine, a, ms, n, at, nav, drawdown, pnl) == openings(f, engine, b, ms, n, at, nav, drawdown, pnl),
    decreases n,
{
    if n > 0 {
        lemma_openings_agree(f, engine, a, b, ms, (n - 1) as nat, at, nav, drawdown, pnl);
        assert(a[n - 1].bars@[at] == b[n - 1].bars@[at]);
    }
}

proof fn lemma_openings_places(
    f: Oracle,
    engine: BacktestEngine,
    bars: Seq<Series>,
    ms: Seq<Mixture>,
    n: nat,
    at: int,
    nav: Real,
    drawdown: Real,
    pnl: Real,
)
    requires
        n <= usize::MAX,
    ensures
        ({
            let o = openings(f, engine, bars, ms, n, at, nav, drawdown, pnl);
            &&& o.open.len() <= engine.risk_limits.max_concurrent_positions
            &&& o.open.len() <= n
            &&& forall|i: int| 0 <= i < o.open.len() ==> (#[trigger] o.open[i]).place < n
        }),
    decreases n,
{
    if n > 0 {
        lemma_openings_places(f, engine, bars, ms, (n - 1) as nat, at, nav, drawdown, pnl);
    }
}

/// No new position weighs more than the limit, on either side.
pub proof fn entries_keep_weight_limit(limits: RiskLimits, m: Mixture)
    requires
        limits.max_single_asset_weight.neg() <= limits.max_single_asset_weight,
        !entry_fraction(limits, m).nan(),
    ensures
        limits.max_single_asset_weight.neg() <= entry_fraction(limits, m),
        entry_fraction(limits, m) <= limits.max_single_asset_weight,
{
}

/// At no bar are more positions open than the limits allow.
pub proof fn positions_stay_within_limit(
    f: Oracle,
    engine: BacktestEngine,
    bars: Seq<Series>,
    initial_nav: Real,
    from: int,
    test_start: int,
    n: nat,
)
    requires
        bars.len() <= usize::MAX,
    ensures
        ({
            let s = simulation(f, engine, bars, initial_nav, from, test_start, n);
            &&& s.open.len() <= engine.risk_limits.max_concurrent_positions
            &&& forall|i: int| 0 <= i < s.open.len() ==> (#[trigger] s.open[i]).place < bars.len()
        }),
{
    if n > 0 {
        let at = test_start + n - 1;
        let before = simulation(f, engine, bars, initial_nav, from, test_start, (n - 1) as nat);
        lemma_openings_places(
            f,
            engine,
            bars,
            distributions_at(f, bars, from, at),
            bars.len(),
            at,
            before.nav,
            drawdown_of(before.nav, before.peak_nav),
            tally(net_profits(closed_trades(bars, before.open, at))),
        );
    }
}

/// There is no look-ahead: the simulation after `n` bars depends only on the
/// bars from the start of training up to there.
pub proof fn simulation_has_no_look_ahead(
    f: Oracle,
    engine: BacktestEngine,
    a: Seq<Series>,
    b: Seq<Series>,
    initial_nav: Real,
    from: int,
    test_start: int,
    n: nat,
)
    requires
        a.len() <= usize::MAX,
        from <= test_start,
        agree(a, b, from, test_start + n),
    ensures
        simulation(f, engine, a, initial_nav, from, test_start, n) == simulation(
            f,
            engine,
            b,
            initial_nav,
            from,
            test_start,
            n,
        ),
    decreases n,
{
    if n > 0 {
        let m = (n - 1) as nat;
        simulation_has_no_look_ahead(f, engine, a, b, initial_nav, from, test_start, m);
        positions_stay_within_limit(f, engine, a, initial_nav, from, test_start, m);
        let s = simulation(f, engine, a, initial_nav, from, test_start, m);
        lemma_bar_agrees(f, engine, a, b, from, test_start + m, s);
    }
}

proof fn lemma_distributions_agree(f: Oracle, a: Seq<Series>, b: Seq<Series>, from: int, at: int)
    requires
        from <= at,
        agree(a, b, from, at + 1),
    ensures
        distributions_at(f, a, from, at) == distributions_at(f, b, from, at),
{
    let ma = distributions_at(f, a, from, at);
    let mb = distributions_at(f, b, from, at);
    assert forall|i: int| 0 <= i < a.len() implies ma[i] == mb[i] by {
        assert(a[i].bars@[at] == b[i].bars@[at]);
        assert forall|t: int| from <= t < at implies #[trigger] a[i].bars@[t] == b[i].bars@[t] by {}
        lemma_trained_agrees(f, a[i].bars@, b[i].bars@, from, at);
    }
    assert(ma =~= mb);
}

proof fn lemma_closed_agree(a: Seq<Series>, b: Seq<Series>, open: Seq<OpenPosition>, at: int)
    requires
        agree(a, b, at, at + 1),
        forall|i: int| 0 <= i < open.len() ==> (#[trigger] open[i]).place < a.len(),
    ensures
        closed_trades(a, open, at) == closed_trades(b, open, at),
{
    let ca = closed_trades(a, open, at);
    let cb = closed_trades(b, open, at);
    assert forall|j: int| 0 <= j < open.len() implies ca[j] == cb[j] by {
        let p = open[j].place as int;
        assert(a[p].bars@[at] == b[p].bars@[at]);
        assert(a[p].asset == b[p].asset);
    }
    assert(ca =~= cb);
}

proof fn lemma_bar_agrees(
    f: Oracle,
    engine: BacktestEngine,
    a: Seq<Series>,
    b: Seq<Series>,
    from: int,
    at: int,
    s: Simulation,
)
    requires
        from <= at,
        agree(a, b, from, at + 1),
        forall|i: int| 0 <= i < s.open.len() ==> (#[trigger] s.open[i]).place < a.len(),
    ensures
        simulated_bar(f, engine, a, from, at, s) == simulated_bar(f, engine, b, from, at, s),
{
    lemma_distributions_agree(f, a, b, from, at);
    assert(agree(a, b, at, at + 1)) by {
        assert forall|i: int, t: int| 0 <= i < a.len() && at <= t < at + 1 implies #[trigger] a[i].bars@[t]
            == b[i].bars@[t] by {}
    }
    lemma_closed_agree(a, b, s.open, at);
    assert forall|i: int| 0 <= i < a.len() implies #[trigger] a[i].bars@[at] == b[i].bars@[at] by {}
    lemma_openings_agree(
        f,
        engine,
        a,
        b,
        distributions_at(f, a, from, at),
        a.len(),
        at,
        s.nav,
        drawdown_of(s.nav, s.peak_nav),
        tally(net_profits(closed_trades(a, s.open, at))),
    );
}

fn size_entry(limits: &RiskLimits, dist: &EnsembleDistribution) -> (r: Real)
    ensures
        forall|m: Mixture|
            #![trigger entry_fraction(*limits, m)]
            same_distribution(*dist, m) ==> r == entry_fraction(*limits, m),
{
    let c = PortfolioConstraints::from_risk_config(
        limits.max_leverage,
        limits.max_single_asset_weight,
        limits.kelly_fraction,
    );
    if c.max_position_fraction.neg() <= c.max_position_fraction {
        KellyOptimizer::optimize_single(dist, Real::whole(0), &c).0
    } else {
        Real::whole(0)
    }
}

fn close_positions(
    bars: &[Series],
    open: &Vec<OpenPosition>,
    at: usize,
    trades: &mut Vec<SimulatedTrade>,
) -> (r: Real)
    requires
        forall|i: int| 0 <= i < open@.len() ==> (#[trigger] open@[i]).place < bars@.len(),
        forall|i: int| 0 <= i < bars@.len() ==> at < (#[trigger] bars@[i]).bars@.len(),
    ensures
        final(trades)@ == old(trades)@ + closed_trades(bars@, open@, at as int),
        r == tally(net_profits(closed_trades(bars@, open@, at as int))),
{
    let ghost closed = closed_trades(bars@, open@, at as int);
    let mut pnl = Real::whole(0);
    let mut i: usize = 0;
    while i < open.len()
        invariant
            i <= open@.len(),
            forall|i: int| 0 <= i < open@.len() ==> (#[trigger] open@[i]).place < bars@.len(),
            forall|i: int| 0 <= i < bars@.len() ==> at < (#[trigger] bars@[i]).bars@.len(),
            closed == closed_trades(bars@, open@, at as int),
            trades@ =~= old(trades)@ + closed.take(i as int),
            pnl == tally(net_profits(closed).take(i as int)),
        decreases open@.len() - i,
    {
        let p = open[i];
        let series = &bars[p.place];
        let bar = series.bars[at];
        let exit_px = deal(&bar, !p.is_long);
        let ret = if p.is_long {
            (exit_px - p.entry_price) / p.entry_price
        } else {
            (p.entry_price - exit_px) / p.entry_price
        };
        let gain = p.size_usd * ret * p.leverage;
        let tc = p.size_usd * bar.spread_pct;
        pnl = pnl + (gain - tc);
        assert(net_profits(closed).take(i + 1).drop_last() =~= net_profits(closed).take(i as int));
        trades.push(
            SimulatedTrade {
                asset: series.asset.clone(),
                entry_bar: p.entry_bar,
                exit_bar: at,
                direction: p.is_long,
                entry_price: p.entry_price,
                exit_price: exit_px,
                size_usd: p.size_usd,
                leverage: p.leverage,
                realized_pnl: gain,
                transaction_cost_usd: tc,
                fill_fraction: p.fill_fraction,
            },
        );
        i += 1;
    }
    assert(closed.take(i as int) =~= closed);
    assert(net_profits(closed).take(i as int) =~= net_profits(closed));
    pnl
}

impl BacktestEngine {
    /// An engine with a cost model of ten seconds, five hundredths of a percent
    /// and default impact.
    pub fn new(config: WalkForwardConfig, risk_limits: RiskLimits) -> (r: Self)
        ensures
            r.config == config,
            r.risk_limits == risk_limits,
            r.exec_model == (ExecutionModel {
                max_signal_age_ms: 10_000,
                spread_cost_bps: Real::whole(5),
                impact: default_impact(),
            }),
    {
        let exec_model = ExecutionModel::new(10_000, Real::whole(5), ImpactParams::default());
        Self { config, exec_model, risk_limits }
    }

    /// Runs the walk-forward evaluation: one result per fold, as many as the
    /// shortest series holds.
    pub fn run<M: Fn(Elementary) -> Real>(&self, bars: &[Series], math: &M) -> (r: BacktestResult)
        requires
            is_function(*math),
            0 < self.config.train_bars + self.config.test_bars <= usize::MAX,
        ensures
            r.folds@.len() == fold_count(self.config, bars@),
            forall|k: int|
                0 <= k < r.folds@.len() ==> #[trigger] r.folds@[k] == fold_of(
                    oracle(*math),
                    *self,
                    bars@,
                    self.config.initial_nav,
                    k as usize,
                    window_of(self.config, k as nat).0,
                    window_of(self.config, k as nat).1,
                    window_of(self.config, k as nat).2,
                ),
            r.equity_curve@.len() == 0,
            r.trades@.len() == 0,
    {
        let mut result = BacktestResult::new();
        let mut min_bars: usize = 0;
        let mut i: usize = 0;
        while i < bars.len()
            invariant
                i <= bars@.len(),
                min_bars == shortest(bars@, i as nat),
            decreases bars@.len() - i,
        {
            if i == 0 || bars[i].bars.len() < min_bars {
                min_bars = bars[i].bars.len();
            }
            i += 1;
        }
        let fold_size: usize = self.config.train_bars + self.config.test_bars;
        let available: usize = min_bars / fold_size;
        let max_folds: usize = if self.config.max_folds == 0 || available < self.config.max_folds {
            available
        } else {
            self.config.max_folds
        };
        let mut fold_idx: usize = 0;
        while fold_idx < max_folds
            invariant
                is_function(*math),
                fold_idx <= max_folds,
                fold_size == self.config.train_bars + self.config.test_bars,
                fold_size > 0,
                max_folds == fold_count(self.config, bars@),
                min_bars == shortest(bars@, bars@.len()),
                result.folds@.len() == fold_idx,
                forall|k: int|
                    0 <= k < fold_idx ==> #[trigger] result.folds@[k] == fold_of(
                        oracle(*math),
                        *self,
                        bars@,
                        self.config.initial_nav,
                        k as usize,
                        window_of(self.config, k as nat).0,
                        window_of(self.config, k as nat).1,
                        window_of(self.config, k as nat).2,
                    ),
                result.equity_curve@.len() == 0,
                result.trades@.len() == 0,
            decreases max_folds - fold_idx,
        {
            proof {
                folds_fit_data(self.config, bars@, fold_idx as nat);
                assert(fold_idx * fold_size >= 0) by (nonlinear_arith)
                    requires
                        fold_idx >= 0,
                        fold_size >= 0,
                ;
            }
            let train_start: usize = fold_idx * fold_size;
            let test_start: usize = train_start + self.config.train_bars;
            let test_end: usize = test_start + self.config.test_bars;
            let fold = self.run_fold(bars, fold_idx, train_start, test_start, test_end, math);
            result.folds.push(fold);
            fold_idx += 1;
        }
        result
    }

    /// Runs one fold: fresh estimators are warmed up on the training window, then
    /// trades are simulated on the test window.
    pub fn run_fold<M: Fn(Elementary) -> Real>(
        &self,
        bars: &[Series],
        fold_idx: usize,
        train_start: usize,
        test_start: usize,
        test_end: usize,
        math: &M,
    ) -> (r: FoldResult)
        requires
            is_function(*math),
            train_start <= test_start <= test_end,
            forall|i: int| 0 <= i < bars@.len() ==> test_end <= (#[trigger] bars@[i]).bars@.len(),
        ensures
            r == fold_of(
                oracle(*math),
                *self,
                bars@,
                self.config.initial_nav,
                fold_idx,
                train_start as int,
                test_start as int,
                test_end as int,
            ),
    {
        let ghost f = oracle(*math);
        let ghost from = train_start as int;
        let mut all: Vec<Estimators> = Vec::new();
        let mut i: usize = 0;
        while i < bars.len()
            invariant
                is_function(*math),
                f == oracle(*math),
                from == train_start,
                i <= bars@.len(),
                train_start <= test_start <= test_end,
                forall|i: int| 0 <= i < bars@.len() ==> test_end <= (#[trigger] bars@[i]).bars@.len(),
                all@.len() == i,
                forall|j: int|
                    0 <= j < i ==> (#[trigger] all@[j]).wf() && all@[j].learnt() == trained(
                        f,
                        bars@[j].bars@,
                        from,
                        test_start as int,
                    ),
            decreases bars@.len() - i,
        {
            let series = &bars[i];
            let mut e = Estimators::new(math);
            let mut t: usize = train_start;
            while t < test_start
                invariant
                    is_function(*math),
                    f == oracle(*math),
                    from == train_start,
                    train_start <= t <= test_start <= series.bars@.len(),
                    e.wf(),
                    e.learnt() == trained(f, series.bars@, from, t as int),
                decreases test_start - t,
            {
                let bar = series.bars[t];
                let obs = Observation {
                    price: bar.close,
                    volume: bar.volume,
                    timestamp_ms: bar.timestamp_ms,
                };
                let _ = e.learn(&obs, math);
                t += 1;
            }
            all.push(e);
            i += 1;
        }
        let mut sim = Sim {
            nav: self.config.initial_nav,
            peak_nav: self.config.initial_nav,
            max_drawdown: Real::whole(0),
            pnls: Vec::new(),
            trades: Vec::new(),
            open: Vec::new(),
        };
        let n_assets: usize = bars.len();
        let n_test: usize = test_end - test_start;
        let mut k: usize = 0;
        assert(sim.view().pnls =~= Seq::empty() && sim.view().trades =~= Seq::empty()
            && sim.view().open =~= Seq::empty());
        while k < n_test
            invariant
                is_function(*math),
                f == oracle(*math),
                from == train_start,
                k <= n_test,
                n_test == test_end - test_start,
                n_assets == bars@.len(),
                train_start <= test_start <= test_end,
                forall|i: int| 0 <= i < bars@.len() ==> test_end <= (#[trigger] bars@[i]).bars@.len(),
                trained_all(f, all@, bars@, from, test_start + k),
                sim.view() == simulation(
                    f,
                    *self,
                    bars@,
                    self.config.initial_nav,
                    from,
                    test_start as int,
                    k as nat,
                ),
            decreases n_test - k,
        {
            proof {
                positions_stay_within_limit(
                    f,
                    *self,
                    bars@,
                    self.config.initial_nav,
                    from,
                    test_start as int,
                    k as nat,
                );
            }
            let at: usize = test_start + k;
            self.simulate_bar(bars, at, &mut all, &mut sim, math, Ghost(from));
            k += 1;
        }
        compute_fold_metrics(
            fold_idx,
            sim.pnls.as_slice(),
            sim.trades.as_slice(),
            self.config.initial_nav,
            sim.nav,
            sim.max_drawdown,
        )
    }

    fn simulate_bar<M: Fn(Elementary) -> Real>(
        &self,
        bars: &[Series],
        at: usize,
        all: &mut Vec<Estimators>,
        sim: &mut Sim,
        math: &M,
        Ghost(from): Ghost<int>,
    )
        requires
            is_function(*math),
            from <= at,
            forall|i: int| 0 <= i < bars@.len() ==> at < (#[trigger] bars@[i]).bars@.len(),
            trained_all(oracle(*math), old(all)@, bars@, from, at as int),
            forall|i: int|
                0 <= i < old(sim).open@.len() ==> (#[trigger] old(sim).open@[i]).place
                    < bars@.len(),
        ensures
            trained_all(oracle(*math), final(all)@, bars@, from, at + 1),
            final(sim).view() == simulated_bar(
                oracle(*math),
                *self,
                bars@,
                from,
                at as int,
                old(sim).view(),
            ),
    {
        let ghost ms = distributions_at(oracle(*math), bars@, from, at as int);
        let dists = learn_bar(bars, at, all, math, Ghost(from));
        let exit_pnl = close_positions(bars, &sim.open, at, &mut sim.trades);
        let (open, bar_pnl) = self.open_positions(
            bars,
            at,
            &dists,
            sim.nav,
            (sim.peak_nav - sim.nav) / sim.peak_nav.max(Real::whole(1)),
            exit_pnl,
            math,
            Ghost(ms),
        );
        sim.open = open;
        sim.nav = sim.nav + bar_pnl;
        sim.pnls.push(bar_pnl);
        if sim.nav > sim.peak_nav {
            sim.peak_nav = sim.nav;
        }
        let dd = (sim.peak_nav - sim.nav) / sim.peak_nav.max(Real::whole(1));
        if dd > sim.max_drawdown {
            sim.max_drawdown = dd;
        }
    }

    fn open_positions<M: Fn(Elementary) -> Real>(
        &self,
        bars: &[Series],
        at: usize,
        dists: &Vec<EnsembleDistribution>,
        nav: Real,
        drawdown: Real,
        exit_pnl: Real,
        math: &M,
        Ghost(ms): Ghost<Seq<Mixture>>,
    ) -> (r: (Vec<OpenPosition>, Real))
        requires
            is_function(*math),
            forall|i: int| 0 <= i < bars@.len() ==> at < (#[trigger] bars@[i]).bars@.len(),
            dists@.len() == bars@.len(),
            forall|j: int| 0 <= j < bars@.len() ==> same_distribution(#[trigger] dists@[j], ms[j]),
        ensures
            ({
                let o = openings(
                    oracle(*math),
                    *self,
                    bars@,
                    ms,
                    bars@.len(),
                    at as int,
                    nav,
                    drawdown,
                    exit_pnl,
                );
                o.open == r.0@ && o.pnl == r.1
            }),
    {
        let ghost f = oracle(*math);
        let limits = self.risk_limits;
        let mut open: Vec<OpenPosition> = Vec::new();
        let mut gross = Real::whole(0);
        let mut bar_pnl = exit_pnl;
        let mut j: usize = 0;
        assert(open@ =~= Seq::empty());
        while j < bars.len()
            invariant
                is_function(*math),
                f == oracle(*math),
                limits == self.risk_limits,
                j <= bars@.len(),
                forall|i: int| 0 <= i < bars@.len() ==> at < (#[trigger] bars@[i]).bars@.len(),
                dists@.len() == bars@.len(),
                forall|j: int|
                    0 <= j < bars@.len() ==> same_distribution(#[trigger] dists@[j], ms[j]),
                openings(f, *self, bars@, ms, j as nat, at as int, nav, drawdown, exit_pnl) == (
                Opening { open: open@, gross, pnl: bar_pnl }),
            decreases bars@.len() - j,
        {
            let dist = &dists[j];
            assert(same_distribution(dists@[j as int], ms[j as int]));
            let edge = dist.directional_edge();
            let fraction = size_entry(&limits, dist);
            let is_long = fraction > Real::whole(0);
            let size_usd = nav * fraction.abs();
            let leverage = Real::whole(1).min(limits.max_leverage);
            let fits = !(drawdown > limits.max_daily_drawdown) && !(dist.confidence
                < limits.min_signal_confidence) && open.len() < limits.max_concurrent_positions
                && !((gross + size_usd * leverage) / nav.max(Real::whole(1))
                > limits.max_gross_exposure);
            if dist.is_confident() && !(edge.abs() < Real::ratio(1, 10)) && !(fraction.abs() < bp())
                && fits {
                let bar = bars[j].bars[at];
                if let Some(e) = self.enter(&bar, edge, is_long, size_usd, leverage, math) {
                    open.push(
                        OpenPosition {
                            place: j,
                            entry_bar: at,
                            entry_price: e.price,
                            is_long,
                            size_usd: e.filled_usd,
                            leverage,
                            fill_fraction: e.fill_fraction,
                        },
                    );
                    gross = gross + e.filled_usd * leverage;
                    bar_pnl = bar_pnl - e.cost;
                }
            }
            j += 1;
        }
        (open, bar_pnl)
    }

    fn enter<M: Fn(Elementary) -> Real>(
        &self,
        bar: &BacktestBar,
        edge: Real,
        is_long: bool,
        size: Real,
        leverage: Real,
        math: &M,
    ) -> (r: Option<Entry>)
        requires
            is_function(*math),
        ensures
            r == entry_at(oracle(*math), *self, *bar, edge, is_long, size, leverage),
    {
        let half_spread = bar.spread_pct * Real::ratio(1, 2);
        if !self.config.simulate_execution {
            return Some(
                Entry {
                    price: deal(bar, is_long),
                    filled_usd: size,
                    fill_fraction: Real::whole(1),
                    cost: size * half_spread,
                },
            );
        }
        let offer = Offer {
            generated_at_ms: bar.timestamp_ms,
            direction: if is_long {
                Direction::Long
            } else {
                Direction::Short
            },
            entry_price: bar.close,
            position_size_usd: size,
            leverage,
            directional_edge: edge,
        };
        let m = self.exec_model.assess(
            &offer,
            bar.timestamp_ms,
            self.config.adv_24h_usd,
            bar.spread_pct,
            bar.book_depth_usd,
            math,
        );
        if m.is_executable {
            Some(
                Entry {
                    price: m.adjusted_entry_price,
                    filled_usd: m.expected_fill_usd,
                    fill_fraction: m.fill_probability,
                    cost: m.expected_fill_usd * (half_spread + m.temporary_impact_pct),
                },
            )
        } else {
            None
        }
    }
}

/// The state of a simulation as it runs.
#[derive(Debug)]
struct Sim {
    nav: Real,
    peak_nav: Real,
    max_drawdown: Real,
    pnls: Vec<Real>,
    trades: Vec<SimulatedTrade>,
    open: Vec<OpenPosition>,
}

impl Sim {
    spec fn view(&self) -> Simulation {
        Simulation {
            nav: self.nav,
            peak_nav: self.peak_nav,
            max_drawdown: self.max_drawdown,
            pnls: self.pnls@,
            trades: self.trades@,
            open: self.open@,
        }
    }
}

/// The estimators of all assets have learnt the bars `from .. to`.
spec fn trained_all(
    f: Oracle,
    all: Seq<Estimators>,
    bars: Seq<Series>,
    from: int,
    to: int,
) -> bool {
    &&& all.len() == bars.len()
    &&& forall|j: int|
        0 <= j < all.len() ==> (#[trigger] all[j]).wf() && all[j].learnt() == trained(
            f,
            bars[j].bars@,
            from,
            to,
        )
}

fn learn_bar<M: Fn(Elementary) -> Real>(
    bars: &[Series],
    at: usize,
    all: &mut Vec<Estimators>,
    math: &M,
    Ghost(from): Ghost<int>,
) -> (r: Vec<EnsembleDistribution>)
    requires
        is_function(*math),
        from <= at,
        forall|i: int| 0 <= i < bars@.len() ==> at < (#[trigger] bars@[i]).bars@.len(),
        trained_all(oracle(*math), old(all)@, bars@, from, at as int),
    ensures
        trained_all(oracle(*math), final(all)@, bars@, from, at + 1),
        r@.len() == bars@.len(),
        forall|j: int|
            0 <= j < bars@.len() ==> same_distribution(
                #[trigger] r@[j],
                distributions_at(oracle(*math), bars@, from, at as int)[j],
            ),
{
    let ghost f = oracle(*math);
    let ghost ms = distributions_at(f, bars@, from, at as int);
    let mut dists: Vec<EnsembleDistribution> = Vec::new();
    let mut i: usize = 0;
    while i < bars.len()
        invariant
            is_function(*math),
            f == oracle(*math),
            from <= at,
            i <= bars@.len(),
            forall|i: int| 0 <= i < bars@.len() ==> at < (#[trigger] bars@[i]).bars@.len(),
            all@.len() == bars@.len(),
            forall|j: int|
                0 <= j < i ==> (#[trigger] all@[j]).wf() && all@[j].learnt() == trained(
                    f,
                    bars@[j].bars@,
                    from,
                    at + 1,
                ),
            forall|j: int|
                i <= j < all@.len() ==> (#[trigger] all@[j]).wf() && all@[j].learnt() == trained(
                    f,
                    bars@[j].bars@,
                    from,
                    at as int,
                ),
            ms == distributions_at(f, bars@, from, at as int),
            dists@.len() == i,
            forall|j: int| 0 <= j < i ==> same_distribution(#[trigger] dists@[j], ms[j]),
        decreases bars@.len() - i,
    {
        let bar = bars[i].bars[at];
        let obs = Observation {
            price: bar.close,
            volume: bar.volume,
            timestamp_ms: bar.timestamp_ms,
        };
        let learnt = all[i].learn(&obs, math);
        if let Some(d) = learnt {
            dists.push(d);
        }
        i += 1;
    }
    dists
}

/// The distribution has the mixture's numbers.
pub open spec fn same_distribution(d: EnsembleDistribution, m: Mixture) -> bool {
    &&& d.p_up == m.p_up
    &&& d.p_down == m.p_down
    &&& d.predictive_mean == m.mean
    &&& d.predictive_std == m.std
    &&& d.confidence == m.confidence
}

} // verus!
