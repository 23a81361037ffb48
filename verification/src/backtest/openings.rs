//! What closing and opening positions does to the books of a simulation.
use vstd::arithmetic::power2::{lemma_pow2_pos, pow2};
use vstd::prelude::*;

use crate::backtest::engine::{
    closed_trade, dealt_price, drawdown_of, entry_at, entry_fraction, fold_count, net_profits,
    opening_after, shortest, window_of, BacktestBar, BacktestEngine, OpenPosition, Opening,
    Series, WalkForwardConfig,
};
use crate::backtest::metrics::SimulatedTrade;
use crate::ensemble::fusion::Mixture;
use crate::execution::model::{assessment, Offer};
use crate::num::elementary::Oracle;
use crate::num::ops::lemma_order_key;
use crate::num::order::lemma_whole;
use crate::num::rules::{
    is_product, is_quotient, is_sum, lemma_finite_factors, lemma_finite_terms,
    lemma_operations_are_close, lemma_same_value, lemma_sum_over, lemma_zero_value, near_ratio,
};
use crate::num::Real;
use crate::signals::generator::Direction;

verus! {

/// What a trade realizes is its size times its return times its leverage, up to rounding:
/// the return is the way from entry to exit over the entry, against it for a short
/// position. It costs its size times the spread.
pub proof fn trade_realizes_its_return(bars: Seq<Series>, p: OpenPosition, at: int)
    requires
        ({
            let t = closed_trade(bars, p, at);
            let way = if p.is_long {
                t.exit_price - p.entry_price
            } else {
                p.entry_price - t.exit_price
            };
            &&& p.entry_price.finite()
            &&& p.entry_price.value() != 0
            &&& way.finite()
            &&& (way / p.entry_price).finite()
            &&& t.realized_pnl.finite()
            &&& t.transaction_cost_usd.finite()
        }),
    ensures
        ({
            let t = closed_trade(bars, p, at);
            let bar = bars[p.place as int].bars@[at];
            let (x, e) = (t.exit_price.value(), p.entry_price.value());
            &&& exists|ret: Real, plain: Real|
                #![trigger is_product(plain, p.size_usd, ret), is_product(
                    t.realized_pnl,
                    plain,
                    p.leverage,
                )]
                near_ratio(
                    ret,
                    if p.is_long {
                        x - e
                    } else {
                        e - x
                    },
                    e,
                    3,
                ) && is_product(plain, p.size_usd, ret) && is_product(
                    t.realized_pnl,
                    plain,
                    p.leverage,
                )
            &&& is_product(t.transaction_cost_usd, p.size_usd, bar.spread_pct)
        }),
{
    let t = closed_trade(bars, p, at);
    let bar = bars[p.place as int].bars@[at];
    let ret = if p.is_long {
        (t.exit_price - p.entry_price) / p.entry_price
    } else {
        (p.entry_price - t.exit_price) / p.entry_price
    };
    let plain = p.size_usd * ret;
    lemma_sum_over(t.exit_price, p.entry_price, p.entry_price);
    lemma_sum_over(p.entry_price, t.exit_price, p.entry_price);
    lemma_finite_factors(plain, p.leverage);
    lemma_operations_are_close(p.size_usd, ret);
    lemma_operations_are_close(plain, p.leverage);
    lemma_operations_are_close(p.size_usd, bar.spread_pct);
    assert(is_product(plain, p.size_usd, ret) && is_product(t.realized_pnl, plain, p.leverage));
}

/// The net profit of a trade is what it realized less what it cost, up to rounding.
pub proof fn net_profit_is_after_costs(trades: Seq<SimulatedTrade>, i: int)
    requires
        0 <= i < trades.len(),
        net_profits(trades)[i].finite(),
    ensures
        is_sum(
            net_profits(trades)[i],
            trades[i].realized_pnl,
            trades[i].transaction_cost_usd.neg(),
        ),
{
    lemma_operations_are_close(trades[i].realized_pnl, trades[i].transaction_cost_usd);
}

/// A drawdown times the peak is the distance from the peak, up to rounding.
pub proof fn drawdown_is_a_share_of_the_peak(nav: Real, peak: Real)
    requires
        Real::whole(1) <= peak,
        peak.finite(),
        (peak - nav).finite(),
        drawdown_of(nav, peak).finite(),
    ensures
        near_ratio(drawdown_of(nav, peak), peak.value() - nav.value(), peak.value(), 3),
{
    lemma_one_at_least(peak);
    lemma_sum_over(peak, nav, peak);
}

proof fn lemma_one_at_least(x: Real)
    requires
        Real::whole(1) <= x,
        x.finite(),
    ensures
        x.max(Real::whole(1)) == x,
        x.value() > 0,
{
    let one = Real::whole(1);
    lemma_whole(1);
    lemma_pow2_pos(1074);
    assert(1 * pow2(1074) == pow2(1074));
    lemma_order_key(one, x);
    if x.max(one) != x {
        lemma_same_value(x, one);
    }
}

/// A position that opens is of the asset and the bar at hand, on the side of the fraction
/// that the optimizer gives; its notional is added to the exposure and its cost taken from
/// the profit, up to rounding. The others stay open.
pub proof fn opening_adds_one_position(
    f: Oracle,
    engine: BacktestEngine,
    bars: Seq<Series>,
    m: Mixture,
    place: int,
    at: int,
    nav: Real,
    drawdown: Real,
    o: Opening,
)
    requires
        0 <= place <= usize::MAX,
        0 <= at <= usize::MAX,
        ({
            let r = opening_after(f, engine, bars, m, place, at, nav, drawdown, o);
            &&& r.open.len() > o.open.len()
            &&& r.gross.finite()
            &&& r.pnl.finite()
        }),
    ensures
        ({
            let r = opening_after(f, engine, bars, m, place, at, nav, drawdown, o);
            let p = r.open.last();
            let fraction = entry_fraction(engine.risk_limits, m);
            &&& r.open.drop_last() == o.open
            &&& p.place == place
            &&& p.entry_bar == at
            &&& p.is_long <==> Real::whole(0) < fraction
            &&& exists|notional: Real| #[trigger]
                is_product(notional, p.size_usd, p.leverage) && is_sum(r.gross, o.gross, notional)
            &&& exists|cost: Real| #[trigger]
                is_sum(r.pnl, o.pnl, cost.neg()) && is_cost(
                    f,
                    engine,
                    bars[place].bars@[at],
                    m,
                    nav,
                    p,
                    cost,
                )
        }),
{
    let r = opening_after(f, engine, bars, m, place, at, nav, drawdown, o);
    let limits = engine.risk_limits;
    let bar = bars[place].bars@[at];
    let fraction = entry_fraction(limits, m);
    let is_long = fraction > Real::whole(0);
    let size = nav * fraction.abs();
    let leverage = Real::whole(1).min(limits.max_leverage);
    let e = entry_at(f, engine, bar, m.p_up - m.p_down, is_long, size, leverage)->0;
    let p = r.open.last();
    assert(r.open.drop_last() =~= o.open);
    let notional = e.filled_usd * leverage;
    lemma_finite_terms(o.gross, notional);
    lemma_operations_are_close(e.filled_usd, leverage);
    lemma_operations_are_close(o.gross, notional);
    assert(is_product(notional, p.size_usd, p.leverage));
    lemma_operations_are_close(o.pnl, e.cost);
    assert(is_sum(r.pnl, o.pnl, e.cost.neg()));
    assert(is_cost(f, engine, bar, m, nav, p, e.cost)) by {
        lemma_finite_terms(o.pnl, e.cost.neg());
        lemma_zero_value(e.cost.neg());
        assert(e.cost.finite());
        let h = bar.spread_pct * Real::ratio(1, 2);
        if !engine.config.simulate_execution {
            lemma_finite_factors(size, h);
            lemma_operations_are_close(nav, fraction.abs());
            lemma_operations_are_close(bar.spread_pct, Real::ratio(1, 2));
            lemma_operations_are_close(size, h);
            assert(is_product(h, bar.spread_pct, Real::ratio(1, 2)));
        }
    }
}

/// Where execution is not simulated, the position is the whole size that the optimizer
/// gives, its fraction of the net asset value, and costs half of the spread on it, up to
/// rounding; it is dealt half a spread from the close.
pub open spec fn is_cost(
    f: Oracle,
    engine: BacktestEngine,
    bar: BacktestBar,
    m: Mixture,
    nav: Real,
    p: OpenPosition,
    cost: Real,
) -> bool {
    let fraction = entry_fraction(engine.risk_limits, m);
    !engine.config.simulate_execution ==> {
        &&& is_product(p.size_usd, nav, fraction.abs())
        &&& p.entry_price == dealt_price(bar, p.is_long)
        &&& p.fill_fraction == Real::whole(1)
        &&& exists|half: Real| #[trigger]
            is_product(half, bar.spread_pct, Real::ratio(1, 2)) && is_product(
                cost,
                p.size_usd,
                half,
            )
    }
}

/// A position opens only where the drawdown is within its limit, the distribution is
/// confident enough, there is room for it, and the exposure with its notional is within the
/// limit of the net asset value.
pub proof fn opening_keeps_the_limits(
    f: Oracle,
    engine: BacktestEngine,
    bars: Seq<Series>,
    m: Mixture,
    place: int,
    at: int,
    nav: Real,
    drawdown: Real,
    o: Opening,
)
    requires
        ({
            let r = opening_after(f, engine, bars, m, place, at, nav, drawdown, o);
            r.open.len() > o.open.len()
        }),
        Real::whole(1) <= nav,
        nav.finite(),
        ({
            let fraction = entry_fraction(engine.risk_limits, m);
            let leverage = Real::whole(1).min(engine.risk_limits.max_leverage);
            let notional = nav * fraction.abs() * leverage;
            (o.gross + notional).finite() && ((o.gross + notional) / nav).finite()
        }),
    ensures
        ({
            let limits = engine.risk_limits;
            let fraction = entry_fraction(limits, m);
            let p = opening_after(f, engine, bars, m, place, at, nav, drawdown, o).open.last();
            &&& !(limits.max_daily_drawdown < drawdown)
            &&& !(m.confidence < limits.min_signal_confidence)
            &&& Real::ratio(55, 100) < m.confidence
            &&& o.open.len() + 1 <= limits.max_concurrent_positions
            &&& exists|size: Real, notional: Real, gross: Real, leverage: Real|
                #![trigger is_product(size, nav, fraction.abs()), is_product(
                    notional,
                    size,
                    p.leverage,
                ), is_sum(gross, o.gross, notional), is_quotient(leverage, gross, nav)]
                is_product(size, nav, fraction.abs()) && is_product(notional, size, p.leverage)
                    && is_sum(gross, o.gross, notional) && is_quotient(leverage, gross, nav) && !(
                limits.max_gross_exposure < leverage)
        }),
{
    let limits = engine.risk_limits;
    let fraction = entry_fraction(limits, m);
    let lev = Real::whole(1).min(limits.max_leverage);
    let size = nav * fraction.abs();
    let notional = size * lev;
    let gross = o.gross + notional;
    lemma_one_at_least(nav);
    let leverage = gross / nav;
    lemma_finite_terms(o.gross, notional);
    lemma_finite_factors(size, lev);
    lemma_operations_are_close(nav, fraction.abs());
    lemma_operations_are_close(size, lev);
    lemma_operations_are_close(o.gross, notional);
    lemma_operations_are_close(gross, nav);
    let p = opening_after(f, engine, bars, m, place, at, nav, drawdown, o).open.last();
    assert(p.leverage == lev);
    assert(is_product(size, nav, fraction.abs()) && is_product(notional, size, p.leverage)
        && is_sum(gross, o.gross, notional) && is_quotient(leverage, gross, nav));
}

/// The offer of a position at the close of a bar.
pub open spec fn offered(
    bar: BacktestBar,
    edge: Real,
    is_long: bool,
    size: Real,
    leverage: Real,
) -> Offer {
    Offer {
        generated_at_ms: bar.timestamp_ms,
        direction: if is_long {
            Direction::Long
        } else {
            Direction::Short
        },
        entry_price: bar.close,
        position_size_usd: size,
        leverage,
        directional_edge: edge,
    }
}

/// The cost is half the spread and the temporary impact on what is filled, up to rounding.
pub open spec fn is_simulated_cost(cost: Real, filled: Real, spread: Real, impact: Real) -> bool {
    exists|half: Real, rate: Real|
        #![trigger is_product(half, spread, Real::ratio(1, 2)), is_sum(rate, half, impact)]
        is_product(half, spread, Real::ratio(1, 2)) && is_sum(rate, half, impact) && is_product(
            cost,
            filled,
            rate,
        )
}

/// Where execution is simulated, the model decides on an offer at the close of the bar: the
/// entry has its price and its fill, and costs half the spread and the temporary impact on
/// what is filled, up to rounding. There is none where the model advises against it.
pub proof fn simulated_entry_pays_spread_and_impact(
    f: Oracle,
    engine: BacktestEngine,
    bar: BacktestBar,
    edge: Real,
    is_long: bool,
    size: Real,
    leverage: Real,
)
    requires
        engine.config.simulate_execution,
        entry_at(f, engine, bar, edge, is_long, size, leverage) matches Some(e)
            ==> e.cost.finite(),
    ensures
        ({
            let m = assessment(
                f,
                engine.exec_model,
                offered(bar, edge, is_long, size, leverage),
                bar.timestamp_ms,
                engine.config.adv_24h_usd,
                bar.spread_pct,
                bar.book_depth_usd,
            );
            let r = entry_at(f, engine, bar, edge, is_long, size, leverage);
            &&& r is Some <==> m.is_executable
            &&& r matches Some(e) ==> e.price == m.adjusted_entry_price && e.filled_usd
                == m.expected_fill_usd && e.fill_fraction == m.fill_probability
                && is_simulated_cost(e.cost, e.filled_usd, bar.spread_pct, m.temporary_impact_pct)
        }),
{
    let m = assessment(
        f,
        engine.exec_model,
        offered(bar, edge, is_long, size, leverage),
        bar.timestamp_ms,
        engine.config.adv_24h_usd,
        bar.spread_pct,
        bar.book_depth_usd,
    );
    let r = entry_at(f, engine, bar, edge, is_long, size, leverage);
    assert(r is Some <==> m.is_executable);
    if r is Some {
        let e = r->0;
        let half = bar.spread_pct * Real::ratio(1, 2);
        let rate = half + m.temporary_impact_pct;
        assert(e.cost == m.expected_fill_usd * rate);
        lemma_finite_factors(m.expected_fill_usd, rate);
        lemma_finite_terms(half, m.temporary_impact_pct);
        lemma_operations_are_close(bar.spread_pct, Real::ratio(1, 2));
        lemma_operations_are_close(half, m.temporary_impact_pct);
        lemma_operations_are_close(m.expected_fill_usd, rate);
        assert(is_product(half, bar.spread_pct, Real::ratio(1, 2)) && is_sum(
            rate,
            half,
            m.temporary_impact_pct,
        ));
    }
}

/// A fold tests right after it has trained, each for as long as configured, and the next
/// fold starts where it ends.
pub proof fn folds_follow_each_other(config: WalkForwardConfig, fold: nat)
    ensures
        ({
            let (from, test, end) = window_of(config, fold);
            &&& test - from == config.train_bars
            &&& end - test == config.test_bars
            &&& window_of(config, fold + 1).0 == end
            &&& window_of(config, 0).0 == 0
        }),
{
    let (n, k) = (fold as int, (config.train_bars + config.test_bars) as int);
    assert((n + 1) * k == n * k + k) by (nonlinear_arith);
    assert(0 * k == 0);
}

/// Where the number of folds is not limited, no further fold fits into the data.
pub proof fn no_further_fold_fits(config: WalkForwardConfig, bars: Seq<Series>)
    requires
        config.max_folds == 0,
        config.train_bars + config.test_bars > 0,
        bars.len() > 0,
    ensures
        exists|i: int|
            0 <= i < bars.len() && (#[trigger] bars[i]).bars@.len() < window_of(
                config,
                fold_count(config, bars),
            ).2,
{
    let size = (config.train_bars + config.test_bars) as int;
    let total = shortest(bars, bars.len()) as int;
    let n = fold_count(config, bars) as int;
    assert(total < n * size + size) by (nonlinear_arith)
        requires
            n == total / size,
            size > 0,
    ;
    lemma_shortest_is_one(bars, bars.len());
}

/// The shortest length is that of one of the series.
proof fn lemma_shortest_is_one(bars: Seq<Series>, n: nat)
    requires
        0 < n <= bars.len(),
    ensures
        exists|i: int| 0 <= i < n && (#[trigger] bars[i]).bars@.len() == shortest(bars, n),
    decreases n,
{
    if n == 1 {
        assert(bars[0].bars@.len() == shortest(bars, 1));
    } else {
        lemma_shortest_is_one(bars, (n - 1) as nat);
        let i = choose|i: int|
            0 <= i < n - 1 && (#[trigger] bars[i]).bars@.len() == shortest(bars, (n - 1) as nat);
        if bars[n - 1].bars@.len() < shortest(bars, (n - 1) as nat) {
            assert(bars[n - 1].bars@.len() == shortest(bars, n));
        } else {
            assert(bars[i].bars@.len() == shortest(bars, n));
        }
    }
}

} // verus!
