//! What a simulated trade is, and what a fold adds up to.
use vstd::arithmetic::power2::*;
use vstd::prelude::*;

use crate::backtest::engine::{
    closed_trade, closed_trades, distributions_at, drawdown_of, entry_at, net_profits, openings,
    positions_stay_within_limit, simulation, trained, BacktestBar, BacktestEngine, OpenPosition,
    Series,
};
use crate::backtest::metrics::{
    aggregate_of, bars_of, longest_drawdown, metrics_of, return_product, trades_of, underwater,
    wins_of, worst_drawdown, FoldResult, SimulatedTrade,
};
use crate::ensemble::fusion::Mixture;
use crate::execution::laws::lemma_fill_grows;
use crate::num::drift::{
    exact_sum, lemma_add_close, lemma_at_most_one, lemma_cancels, lemma_mul_close,
    lemma_mul_shrinks, size, sizes, PARTS,
};
use crate::num::elementary::{exp_is_monotone, Oracle};
use crate::num::model::BINADE;
use crate::num::ops::lemma_order_key;
use crate::num::order::{
    lemma_add_not_negative, lemma_count, lemma_count_order, lemma_div_antitone, lemma_div_monotone,
    lemma_mul_monotone, lemma_whole, lemma_whole_order,
};
use crate::num::rules::{
    lemma_between, lemma_difference_sign, lemma_finite_factors, lemma_finite_terms, lemma_half,
    lemma_half_of, lemma_moved, lemma_over_itself, lemma_over_one, lemma_plus_zero,
    lemma_product_near, lemma_quotient_near, lemma_sum_near, lemma_times_one, lemma_times_zero,
    lemma_zero_over, lemma_zero_value,
};
use crate::num::series::{sum_of_seq, tally};
use crate::num::Real;

verus! {

/// The bar at which a position is closed.
pub open spec fn exit_bar(bars: Seq<Series>, p: OpenPosition, at: int) -> BacktestBar {
    bars[p.place as int].bars@[at]
}

/// A closed trade leaves half the spread at the bar's close: a long one sells below it,
/// a short one buys above it, by half the spread up to rounding.
pub proof fn trade_exits_half_a_spread_from_the_close(
    bars: Seq<Series>,
    p: OpenPosition,
    at: int,
)
    requires
        Real::whole(0) < exit_bar(bars, p, at).close,
        Real::whole(0) <= exit_bar(bars, p, at).spread_pct,
        exit_bar(bars, p, at).spread_pct <= Real::whole(1),
        closed_trade(bars, p, at).exit_price.finite(),
    ensures
        ({
            let bar = exit_bar(bars, p, at);
            let (x, c, s, w) = (
                closed_trade(bars, p, at).exit_price.value(),
                bar.close.value(),
                bar.spread_pct.value(),
                pow2(1074) as int,
            );
            if p.is_long {
                size(2 * (x * w) - c * (2 * w - s)) * PARTS <= 12 * (c * w) + w * PARTS
            } else {
                size(2 * (x * w) - c * (2 * w + s)) * PARTS <= 12 * (c * w) + w * PARTS
            }
        }),
{
    let bar = exit_bar(bars, p, at);
    let (close, spread, one) = (bar.close, bar.spread_pct, Real::whole(1));
    let x = closed_trade(bars, p, at).exit_price;
    lemma_whole(0);
    lemma_whole(1);
    let w = pow2(1074) as int;
    lemma_pow2_pos(1074);
    lemma2_to64();
    lemma2_to64_rest();
    lemma_pow2_strictly_increases(53, 1074);
    assert(0 * w == 0 && 1 * w == w);
    lemma_between(Real::whole(0), spread, one);
    lemma_half_of(spread);
    let h = spread * Real::ratio(1, 2);
    let f = if p.is_long {
        one - h
    } else {
        one + h
    };
    assert(x == close * f);
    lemma_finite_factors(close, f);
    lemma_zero_value(h);
    if p.is_long {
        lemma_difference_sign(one, h);
        lemma_add_close(one, h.neg());
    } else {
        lemma_add_not_negative(one, h);
        lemma_add_close(one, h);
    }
    lemma_mul_close(close, f);
    let (xv, c, s, hv, fv) = (x.value(), close.value(), spread.value(), h.value(), f.value());
    let sh = if p.is_long {
        -hv
    } else {
        hv
    };
    let ss = if p.is_long {
        -s
    } else {
        s
    };
    let (e1, e2, e3) = (2 * sh - ss, fv - (w + sh), xv * w - c * fv);
    assert(fv <= 3 * w) by (nonlinear_arith)
        requires
            e2 == fv - (w + sh),
            size(e2) * PARTS <= w + w,
            sh <= w,
            w > 0,
    ;
    let q = 2 * (xv * w) - c * (2 * w + ss);
    let (q2, q1) = (c * e2, c * e1);
    assert(q == 2 * e3 + 2 * q2 + q1) by (nonlinear_arith)
        requires
            q == 2 * (xv * w) - c * (2 * w + ss),
            e1 == 2 * sh - ss,
            e2 == fv - (w + sh),
            e3 == xv * w - c * fv,
            q2 == c * e2,
            q1 == c * e1,
    ;
    assert(c * fv <= 3 * (c * w)) by (nonlinear_arith)
        requires
            fv <= 3 * w,
            c >= 0,
    ;
    assert(size(q2) * PARTS <= 2 * (c * w)) by (nonlinear_arith)
        requires
            q2 == c * e2,
            size(e2) * PARTS <= 2 * w,
            c >= 0,
    ;
    assert(size(q1) * PARTS <= 2 * (c * w)) by (nonlinear_arith)
        requires
            q1 == c * e1,
            size(e1) * PARTS <= w + PARTS,
            PARTS <= w,
            c >= 0,
    ;
    assert(size(q) * PARTS <= 2 * (size(e3) * PARTS) + 2 * (size(q2) * PARTS) + size(q1) * PARTS)
        by (nonlinear_arith)
        requires
            size(q) <= 2 * size(e3) + 2 * size(q2) + size(q1),
    ;
    assert(2 * (w * BINADE) == w * PARTS) by (nonlinear_arith)
        requires
            PARTS == 2 * BINADE,
    ;
}

/// Without a spread a trade leaves at the close of its bar, whatever the bar's open,
/// high and low are, and its profit is its size times the move from the entry to that
/// close, long or against it, times the leverage.
pub proof fn trade_without_spread_exits_at_the_close(bars: Seq<Series>, p: OpenPosition, at: int)
    requires
        Real::whole(0) < exit_bar(bars, p, at).close,
        exit_bar(bars, p, at).close.finite(),
        exit_bar(bars, p, at).spread_pct.zero(),
        p.size_usd.finite(),
    ensures
        ({
            let t = closed_trade(bars, p, at);
            let close = exit_bar(bars, p, at).close;
            &&& t.exit_price == close
            &&& t.transaction_cost_usd.value() == 0
            &&& p.is_long ==> t.realized_pnl == p.size_usd * ((close - p.entry_price)
                / p.entry_price) * p.leverage
            &&& !p.is_long ==> t.realized_pnl == p.size_usd * ((p.entry_price - close)
                / p.entry_price) * p.leverage
        }),
{
    let bar = exit_bar(bars, p, at);
    let one = Real::whole(1);
    lemma_whole(0);
    lemma_whole(1);
    lemma_pow2_pos(1074);
    assert(0 * pow2(1074) == 0 && 1 * pow2(1074) == pow2(1074));
    lemma_half();
    lemma_times_zero(Real::ratio(1, 2), bar.spread_pct);
    let h = bar.spread_pct * Real::ratio(1, 2);
    lemma_zero_value(h);
    lemma_plus_zero(one, h);
    lemma_plus_zero(one, h.neg());
    lemma_times_one(bar.close);
    lemma_times_zero(p.size_usd, bar.spread_pct);
}

/// A trade records what its position was, and when it was closed.
pub proof fn trade_records_its_position(bars: Seq<Series>, p: OpenPosition, at: usize)
    ensures
        ({
            let t = closed_trade(bars, p, at as int);
            &&& t.asset == bars[p.place as int].asset
            &&& t.entry_bar == p.entry_bar
            &&& t.exit_bar == at
            &&& t.direction == p.is_long
            &&& t.entry_price == p.entry_price
            &&& t.size_usd == p.size_usd
            &&& t.leverage == p.leverage
            &&& t.fill_fraction == p.fill_fraction
        }),
{
}

/// A long trade earns where it leaves above its entry and loses below, a short trade the
/// other way round.
pub proof fn trade_earns_on_its_side(bars: Seq<Series>, p: OpenPosition, at: int)
    requires
        Real::whole(0) < p.entry_price,
        p.entry_price.finite(),
        Real::whole(0) <= p.size_usd,
        p.size_usd.finite(),
        Real::whole(0) <= p.leverage,
        p.leverage.finite(),
        closed_trade(bars, p, at).exit_price.finite(),
        closed_trade(bars, p, at).realized_pnl.finite(),
    ensures
        ({
            let t = closed_trade(bars, p, at);
            let above = t.exit_price >= t.entry_price;
            let below = t.exit_price <= t.entry_price;
            &&& p.is_long && above ==> t.realized_pnl >= Real::whole(0)
            &&& p.is_long && below ==> t.realized_pnl <= Real::whole(0)
            &&& !p.is_long && above ==> t.realized_pnl <= Real::whole(0)
            &&& !p.is_long && below ==> t.realized_pnl >= Real::whole(0)
        }),
{
    let t = closed_trade(bars, p, at);
    lemma_whole(0);
    assert(0 * pow2(1074) == 0);
    let d = if p.is_long {
        t.exit_price - p.entry_price
    } else {
        p.entry_price - t.exit_price
    };
    let q = d / p.entry_price;
    let a = p.size_usd * q;
    assert(t.realized_pnl == a * p.leverage);
    lemma_finite_factors(a, p.leverage);
    lemma_finite_factors(p.size_usd, q);
    if p.is_long {
        lemma_difference_sign(t.exit_price, p.entry_price);
    } else {
        lemma_difference_sign(p.entry_price, t.exit_price);
    }
    assert(d.finite()) by {
        reveal(Real::spec_div);
    }
    lemma_quotient_near(d, p.entry_price);
    lemma_product_near(p.size_usd, q);
    lemma_product_near(a, p.leverage);
    let (dv, ev, qv, sv, av, lv) = (
        d.value(),
        p.entry_price.value(),
        q.value(),
        p.size_usd.value(),
        a.value(),
        p.leverage.value(),
    );
    assert(dv >= 0 ==> dv * ev >= 0) by (nonlinear_arith)
        requires
            ev >= 0,
    ;
    assert(dv <= 0 ==> dv * ev <= 0) by (nonlinear_arith)
        requires
            ev >= 0,
    ;
    assert(qv >= 0 ==> sv * qv >= 0) by (nonlinear_arith)
        requires
            sv >= 0,
    ;
    assert(qv <= 0 ==> sv * qv <= 0) by (nonlinear_arith)
        requires
            sv >= 0,
    ;
    assert(av >= 0 ==> av * lv >= 0) by (nonlinear_arith)
        requires
            lv >= 0,
    ;
    assert(av <= 0 ==> av * lv <= 0) by (nonlinear_arith)
        requires
            lv >= 0,
    ;
}

/// Two histories agree in what a simulation may look at: closes, spreads, depths and
/// times. Opens, highs, lows and volumes may differ.
pub open spec fn same_market(a: Seq<Series>, b: Seq<Series>) -> bool {
    &&& a.len() == b.len()
    &&& forall|i: int| 0 <= i < a.len() ==> (#[trigger] a[i]).asset == b[i].asset
    &&& forall|i: int, t: int|
        0 <= i < a.len() ==> {
            let (x, y) = (#[trigger] a[i].bars@[t], b[i].bars@[t]);
            &&& x.close == y.close
            &&& x.spread_pct == y.spread_pct
            &&& x.book_depth_usd == y.book_depth_usd
            &&& x.timestamp_ms == y.timestamp_ms
        }
}

proof fn lemma_same_training(f: Oracle, a: Seq<Series>, b: Seq<Series>, i: int, from: int, to: int)
    requires
        same_market(a, b),
        0 <= i < a.len(),
    ensures
        trained(f, a[i].bars@, from, to) == trained(f, b[i].bars@, from, to),
    decreases to - from,
{
    if to > from {
        lemma_same_training(f, a, b, i, from, to - 1);
        assert(a[i].bars@[to - 1].close == b[i].bars@[to - 1].close);
    }
}

proof fn lemma_same_openings(
    f: Oracle,
    engine: BacktestEngine,
    a: Seq<Series>,
    b: Seq<Series>,
    ms: Seq<Mixture>,
    n: nat,
    at: int,
    nav: Real,
    drawdown: Real,
    pnl: Real,
)
    requires
        same_market(a, b),
        n <= a.len(),
    ensures
        openings(f, engine, a, ms, n, at, nav, drawdown, pnl) == openings(
            f,
            engine,
            b,
            ms,
            n,
            at,
            nav,
            drawdown,
            pnl,
        ),
    decreases n,
{
    if n > 0 {
        lemma_same_openings(f, engine, a, b, ms, (n - 1) as nat, at, nav, drawdown, pnl);
        let (x, y) = (a[n - 1].bars@[at], b[n - 1].bars@[at]);
        assert(x.close == y.close);
    }
}

/// A simulation looks at closes, spreads, depths and times alone: two histories that
/// agree in these have the same trades, profits and net asset value.
pub proof fn simulation_looks_at_closes(
    f: Oracle,
    engine: BacktestEngine,
    a: Seq<Series>,
    b: Seq<Series>,
    initial_nav: Real,
    from: int,
    test_start: int,
    n: nat,
)
    requires
        same_market(a, b),
        a.len() <= usize::MAX,
    ensures
        simulation(f, engine, a, initial_nav, from, test_start, n) == simulation(
            f,
            engine,
            b,
            initial_nav,
            from,
            test_start,
            n,
        ),
    decreases n,
{
    if n > 0 {
        let m = (n - 1) as nat;
        simulation_looks_at_closes(f, engine, a, b, initial_nav, from, test_start, m);
        positions_stay_within_limit(
            f,
            engine,
            a,
            initial_nav,
            from,
            test_start,
            m,
        );
        let s = simulation(f, engine, a, initial_nav, from, test_start, m);
        let at = test_start + m;
        let (ma, mb) = (distributions_at(f, a, from, at), distributions_at(f, b, from, at));
        assert forall|i: int| 0 <= i < a.len() implies ma[i] == mb[i] by {
            lemma_same_training(f, a, b, i, from, at);
            assert(a[i].bars@[at].close == b[i].bars@[at].close);
        }
        assert(ma =~= mb);
        let (ca, cb) = (closed_trades(a, s.open, at), closed_trades(b, s.open, at));
        assert forall|j: int| 0 <= j < s.open.len() implies ca[j] == cb[j] by {
            let i = s.open[j].place as int;
            assert(a[i].bars@[at].close == b[i].bars@[at].close);
            assert(a[i].asset == b[i].asset);
        }
        assert(ca =~= cb);
        lemma_same_openings(
            f,
            engine,
            a,
            b,
            ma,
            a.len(),
            at,
            s.nav,
            drawdown_of(s.nav, s.peak_nav),
            tally(net_profits(ca)),
        );
    }
}

/// The net asset value before any of the profits.
pub open spec fn with_profits(initial_nav: Real, pnls: Seq<Real>) -> Real
    decreases pnls.len(),
{
    if pnls.len() == 0 {
        initial_nav
    } else {
        with_profits(initial_nav, pnls.drop_last()) + pnls.last()
    }
}

/// A fold keeps its books: there is one profit per bar, the net asset value is the
/// initial one with the profits of the bars added in turn, and the peak is never below
/// it.
pub proof fn books_are_kept(
    f: Oracle,
    engine: BacktestEngine,
    bars: Seq<Series>,
    initial_nav: Real,
    from: int,
    test_start: int,
    n: nat,
)
    requires
        !initial_nav.nan(),
    ensures
        ({
            let s = simulation(f, engine, bars, initial_nav, from, test_start, n);
            &&& s.pnls.len() == n
            &&& s.nav == with_profits(initial_nav, s.pnls)
            &&& !s.peak_nav.nan()
            &&& !s.nav.nan() ==> s.nav <= s.peak_nav
        }),
    decreases n,
{
    if n > 0 {
        let m = (n - 1) as nat;
        books_are_kept(f, engine, bars, initial_nav, from, test_start, m);
        let before = simulation(f, engine, bars, initial_nav, from, test_start, m);
        let after = simulation(f, engine, bars, initial_nav, from, test_start, n);
        assert(after.pnls.drop_last() =~= before.pnls);
    }
}

proof fn lemma_entered_now(
    f: Oracle,
    engine: BacktestEngine,
    bars: Seq<Series>,
    ms: Seq<Mixture>,
    n: nat,
    at: int,
    nav: Real,
    drawdown: Real,
    pnl: Real,
)
    requires
        n <= usize::MAX,
        0 <= at <= usize::MAX,
    ensures
        ({
            let o = openings(f, engine, bars, ms, n, at, nav, drawdown, pnl);
            forall|i: int|
                0 <= i < o.open.len() ==> {
                    let p = #[trigger] o.open[i];
                    let m = ms[p.place as int];
                    &&& p.place < n
                    &&& p.entry_bar == at
                    &&& m.confidence > Real::ratio(55, 100)
                    &&& !(m.confidence < engine.risk_limits.min_signal_confidence)
                    &&& !((m.p_up - m.p_down).abs() < Real::ratio(1, 10))
                    &&& !(drawdown > engine.risk_limits.max_daily_drawdown)
                    &&& p.leverage == Real::whole(1).min(engine.risk_limits.max_leverage)
                }
        }),
    decreases n,
{
    if n > 0 {
        lemma_entered_now(f, engine, bars, ms, (n - 1) as nat, at, nav, drawdown, pnl);
        let before = openings(f, engine, bars, ms, (n - 1) as nat, at, nav, drawdown, pnl);
        let o = openings(f, engine, bars, ms, n, at, nav, drawdown, pnl);
        assert forall|i: int| 0 <= i < o.open.len() implies {
            let p = #[trigger] o.open[i];
            let m = ms[p.place as int];
            &&& p.place < n
            &&& p.entry_bar == at
            &&& m.confidence > Real::ratio(55, 100)
            &&& !(m.confidence < engine.risk_limits.min_signal_confidence)
            &&& !((m.p_up - m.p_down).abs() < Real::ratio(1, 10))
            &&& !(drawdown > engine.risk_limits.max_daily_drawdown)
            &&& p.leverage == Real::whole(1).min(engine.risk_limits.max_leverage)
        } by {
            if i < before.open.len() {
                assert(o.open[i] == before.open[i]);
            }
        }
    }
}

/// Positions are entered at the bar on whose distribution they rest, only where it is
/// confident and has an edge and the drawdown is within its limit, and every one is
/// closed at the next bar: a trade spans exactly one bar, after the test window has
/// begun.
pub proof fn trades_span_one_bar(
    f: Oracle,
    engine: BacktestEngine,
    bars: Seq<Series>,
    initial_nav: Real,
    from: int,
    test_start: int,
    n: nat,
)
    requires
        bars.len() <= usize::MAX,
        0 <= test_start,
        test_start + n <= usize::MAX,
    ensures
        ({
            let s = simulation(f, engine, bars, initial_nav, from, test_start, n);
            &&& forall|i: int|
                0 <= i < s.trades.len() ==> {
                    let t = #[trigger] s.trades[i];
                    test_start <= t.entry_bar && t.exit_bar == t.entry_bar + 1 && t.exit_bar
                        < test_start + n
                }
            &&& forall|i: int|
                0 <= i < s.open.len() ==> {
                    let p = #[trigger] s.open[i];
                    let m = distributions_at(f, bars, from, test_start + n - 1)[p.place as int];
                    &&& n > 0
                    &&& p.place < bars.len()
                    &&& p.entry_bar == test_start + n - 1
                    &&& m.confidence > Real::ratio(55, 100)
                    &&& !(m.confidence < engine.risk_limits.min_signal_confidence)
                    &&& !((m.p_up - m.p_down).abs() < Real::ratio(1, 10))
                }
        }),
    decreases n,
{
    if n > 0 {
        let m = (n - 1) as nat;
        trades_span_one_bar(f, engine, bars, initial_nav, from, test_start, m);
        let at = test_start + n - 1;
        let before = simulation(f, engine, bars, initial_nav, from, test_start, m);
        let after = simulation(f, engine, bars, initial_nav, from, test_start, n);
        let closed = closed_trades(bars, before.open, at);
        assert(after.trades =~= before.trades + closed);
        assert forall|i: int| 0 <= i < after.trades.len() implies {
            let t = #[trigger] after.trades[i];
            test_start <= t.entry_bar && t.exit_bar == t.entry_bar + 1 && t.exit_bar < test_start
                + n
        } by {
            if i < before.trades.len() {
                assert(after.trades[i] == before.trades[i]);
            } else {
                let j = i - before.trades.len();
                assert(after.trades[i] == closed[j]);
                let p = before.open[j];
                assert(p.entry_bar == at - 1);
            }
        }
        lemma_entered_now(
            f,
            engine,
            bars,
            distributions_at(f, bars, from, at),
            bars.len(),
            at,
            before.nav,
            drawdown_of(before.nav, before.peak_nav),
            tally(net_profits(closed)),
        );
    }
}

/// Without simulated execution a position is filled whole, at half the spread from the
/// close; with a spread of zero, at the close itself and for nothing.
pub proof fn plain_entry_is_at_the_close(
    f: Oracle,
    engine: BacktestEngine,
    bar: BacktestBar,
    edge: Real,
    is_long: bool,
    asked: Real,
    leverage: Real,
)
    requires
        !engine.config.simulate_execution,
        bar.spread_pct.zero(),
        Real::whole(0) < bar.close,
        asked.finite(),
    ensures
        entry_at(f, engine, bar, edge, is_long, asked, leverage) matches Some(e) && e.price
            == bar.close && e.filled_usd == asked && e.fill_fraction == Real::whole(1)
            && e.cost.value() == 0,
{
    let one = Real::whole(1);
    lemma_whole(0);
    lemma_whole(1);
    lemma_pow2_pos(1074);
    assert(0 * pow2(1074) == 0 && 1 * pow2(1074) == pow2(1074));
    lemma_half();
    lemma_times_zero(Real::ratio(1, 2), bar.spread_pct);
    let h = bar.spread_pct * Real::ratio(1, 2);
    lemma_zero_value(h);
    lemma_plus_zero(one, h);
    lemma_plus_zero(one, h.neg());
    lemma_times_one(bar.close);
    lemma_times_zero(asked, h);
}

/// With simulated execution a position is entered only where a fill is likely enough,
/// a long one not below the close and a short one not above it, and no more is filled
/// than was asked for.
pub proof fn simulated_entry_is_no_better_than_the_close(
    f: Oracle,
    engine: BacktestEngine,
    bar: BacktestBar,
    edge: Real,
    is_long: bool,
    asked: Real,
    leverage: Real,
)
    requires
        engine.config.simulate_execution,
        entry_at(f, engine, bar, edge, is_long, asked, leverage) matches Some(e)
            && e.price.finite(),
        Real::whole(0) < bar.close,
        bar.close.finite(),
        Real::whole(0) <= bar.spread_pct,
        bar.spread_pct.finite(),
        Real::whole(0) <= asked * leverage,
        (asked * leverage).finite(),
        Real::whole(0) <= asked,
        asked.finite(),
        Real::whole(0) <= bar.book_depth_usd,
        bar.book_depth_usd.finite(),
        Real::whole(1) <= engine.config.adv_24h_usd,
        engine.config.adv_24h_usd.finite(),
        Real::whole(0) <= engine.exec_model.impact.eta,
        engine.exec_model.impact.eta.finite(),
        exp_is_monotone(f),
    ensures
        entry_at(f, engine, bar, edge, is_long, asked, leverage) matches Some(e) && {
            &&& is_long ==> bar.close <= e.price
            &&& !is_long ==> e.price <= bar.close
            &&& e.fill_fraction > Real::ratio(3, 10) && e.fill_fraction <= Real::whole(1)
            &&& Real::whole(0) <= e.filled_usd && e.filled_usd <= asked
            &&& size(
                e.filled_usd.value() * pow2(1074) - asked.value() * e.fill_fraction.value(),
            ) * PARTS <= asked.value() * e.fill_fraction.value() + pow2(1074) * BINADE
        },
{
    let e = entry_at(f, engine, bar, edge, is_long, asked, leverage)->0;
    let one = Real::whole(1);
    lemma_whole(0);
    lemma_whole(1);
    lemma_whole_order(0, 1);
    lemma_pow2_pos(1074);
    assert(0 * pow2(1074) == 0 && 1 * pow2(1074) == pow2(1074));
    let n = asked * leverage;
    let m = n.max(one);
    lemma_div_monotone(bar.book_depth_usd, bar.book_depth_usd, m);
    lemma_fill_grows(f, bar.book_depth_usd / m, bar.book_depth_usd / m);
    let p = e.fill_fraction;
    lemma_order_key(p, one);
    lemma_zero_value(p);
    lemma_between(Real::whole(0), p, one);
    lemma_mul_shrinks(asked, p);
    lemma_mul_close(asked, p);
    lemma_half_of(bar.spread_pct);
    let h = bar.spread_pct * Real::ratio(1, 2);
    let adv = engine.config.adv_24h_usd;
    lemma_div_monotone(n, n, adv);
    assert((n / adv).finite()) by {
        if n.value() == 0 {
            lemma_zero_value(n);
            lemma_zero_over(n, adv);
        } else {
            lemma_div_antitone(n, one, adv);
            lemma_over_one(n);
            lemma_between(Real::whole(0), n / adv, n);
        }
    }
    lemma_mul_monotone(n / adv, n / adv, engine.exec_model.impact.eta);
    let x = h + engine.exec_model.impact.eta * (n / adv);
    lemma_add_not_negative(h, engine.exec_model.impact.eta * (n / adv));
    let move_ = bar.close * x;
    if is_long {
        lemma_finite_terms(bar.close, move_);
    } else {
        lemma_finite_terms(bar.close, move_.neg());
    }
    lemma_finite_factors(bar.close, x);
    lemma_moved(bar.close, x);
}

/// How many of the first `n` trades made a profit.
pub open spec fn winners(trades: Seq<SimulatedTrade>, n: nat) -> nat
    decreases n,
{
    if n == 0 {
        0
    } else {
        winners(trades, (n - 1) as nat) + if trades[n - 1].realized_pnl > Real::whole(0) {
            1nat
        } else {
            0nat
        }
    }
}

proof fn lemma_winners(trades: Seq<SimulatedTrade>, n: nat)
    ensures
        wins_of(trades, n).len() == winners(trades, n),
        winners(trades, n) <= n,
    decreases n,
{
    if n > 0 {
        lemma_winners(trades, (n - 1) as nat);
    }
}

/// The hit rate is the share of the trades that made a profit, up to rounding: one
/// where all did, zero where none did.
pub proof fn hit_rate_is_the_share_of_winners(
    fold_idx: usize,
    pnls: Seq<Real>,
    trades: Seq<SimulatedTrade>,
    initial_nav: Real,
    final_nav: Real,
    max_drawdown: Real,
)
    requires
        2 <= pnls.len() <= usize::MAX,
        0 < trades.len() < 0x20_0000_0000_0000,
        trades.len() <= usize::MAX,
    ensures
        ({
            let r = metrics_of(fold_idx, pnls, trades, initial_nav, final_nav, max_drawdown);
            let (n, k, w) = (
                trades.len() as int,
                winners(trades, trades.len()) as int,
                pow2(1074) as int,
            );
            &&& r.n_trades == n
            &&& Real::whole(0) <= r.hit_rate && r.hit_rate <= Real::whole(1)
            &&& size(r.hit_rate.value() * n - k * w) * PARTS <= k * w + n * BINADE
            &&& k == n ==> r.hit_rate == Real::whole(1)
            &&& k == 0 ==> r.hit_rate.value() == 0
        }),
{
    let n = trades.len();
    let k = winners(trades, n);
    let w = pow2(1074) as int;
    lemma_pow2_pos(1074);
    lemma_winners(trades, n);
    lemma_enough_bars(pnls.len());
    lemma_count(n as usize);
    lemma_count(k as usize);
    lemma_whole(0);
    lemma_whole(1);
    lemma_whole(n as i64);
    lemma_whole(k as i64);
    lemma_whole_order(0, k as i64);
    lemma_whole_order(k as i64, n as i64);
    assert(0 * w == 0 && 1 * w == w);
    let (a, b) = (Real::whole(k as i64), Real::whole(n as i64));
    assert(n * w > 0) by (nonlinear_arith)
        requires
            n > 0,
            w > 0,
    ;
    lemma_div_monotone(a, a, b);
    lemma_at_most_one(a, b);
    lemma_quotient_near(a, b);
    let q = (a / b).value();
    assert(size(q * n - k * w) * PARTS <= k * w + n * BINADE) by (nonlinear_arith)
        requires
            size(q * (n * w) - (k * w) * w) * PARTS <= (k * w) * w + (n * w) * BINADE,
            w > 0,
    ;
    if k == n {
        lemma_over_itself(b);
    }
    if k == 0 {
        lemma_zero_value(a);
        lemma_zero_over(a, b);
    }
}

/// Two bars are enough for metrics.
proof fn lemma_enough_bars(n: nat)
    requires
        2 <= n <= usize::MAX,
    ensures
        !(Real::count(n as usize) < Real::whole(2)),
{
    lemma_count(2);
    lemma_count_order(2, n as usize);
}

/// Turnover and costs of a fold are those of its trades added up, up to rounding.
pub proof fn turnover_and_costs_add_up(
    fold_idx: usize,
    pnls: Seq<Real>,
    trades: Seq<SimulatedTrade>,
    initial_nav: Real,
    final_nav: Real,
    max_drawdown: Real,
)
    requires
        2 <= pnls.len() <= usize::MAX,
        sum_of_seq(sizes(trades.map_values(|t: SimulatedTrade| t.size_usd))).finite(),
        sum_of_seq(sizes(trades.map_values(|t: SimulatedTrade| t.transaction_cost_usd))).finite(),
    ensures
        ({
            let r = metrics_of(fold_idx, pnls, trades, initial_nav, final_nav, max_drawdown);
            let sold = trades.map_values(|t: SimulatedTrade| t.size_usd);
            let paid = trades.map_values(|t: SimulatedTrade| t.transaction_cost_usd);
            &&& size(r.total_turnover.value() - exact_sum(sold)) * PARTS <= trades.len() * (4
                * sum_of_seq(sizes(sold)).value())
            &&& size(r.total_transaction_costs_usd.value() - exact_sum(paid)) * PARTS
                <= trades.len() * (4 * sum_of_seq(sizes(paid)).value())
        }),
{
    lemma_enough_bars(pnls.len());
    lemma_sum_near(trades.map_values(|t: SimulatedTrade| t.size_usd));
    lemma_sum_near(trades.map_values(|t: SimulatedTrade| t.transaction_cost_usd));
}

/// The total return turns the initial net asset value into the final one, up to
/// rounding; where they are equal it is zero. The drawdown is handed through.
pub proof fn total_return_grows_the_initial_value(
    fold_idx: usize,
    pnls: Seq<Real>,
    trades: Seq<SimulatedTrade>,
    initial_nav: Real,
    final_nav: Real,
    max_drawdown: Real,
)
    requires
        2 <= pnls.len() <= usize::MAX,
        initial_nav.finite(),
        initial_nav.value() != 0,
        final_nav.finite(),
        metrics_of(
            fold_idx,
            pnls,
            trades,
            initial_nav,
            final_nav,
            max_drawdown,
        ).total_return.finite(),
    ensures
        ({
            let r = metrics_of(fold_idx, pnls, trades, initial_nav, final_nav, max_drawdown);
            let (t, i, n, w) = (
                r.total_return.value(),
                initial_nav.value(),
                final_nav.value(),
                pow2(1074) as int,
            );
            &&& r.fold_idx == fold_idx && r.n_bars == pnls.len() && r.n_trades
                == trades.len() as usize
            &&& r.max_drawdown == max_drawdown
            &&& size((t + w) * i - n * w) * PARTS <= 3 * (size(n) * w) + 3 * (size(i) * w)
            &&& final_nav == initial_nav ==> r.total_return.value() == 0
        }),
{
    let one = Real::whole(1);
    lemma_enough_bars(pnls.len());
    lemma_whole(0);
    lemma_whole(1);
    let w = pow2(1074) as int;
    lemma_pow2_pos(1074);
    lemma2_to64();
    lemma2_to64_rest();
    lemma_pow2_strictly_increases(53, 1074);
    assert(0 * w == 0 && 1 * w == w);
    let q = final_nav / initial_nav;
    let t = q - one;
    lemma_finite_terms(q, one.neg());
    lemma_quotient_near(final_nav, initial_nav);
    lemma_add_close(q, one.neg());
    lemma_zero_value(one);
    let (tv, qv, i, n) = (t.value(), q.value(), initial_nav.value(), final_nav.value());
    let (e1, e2) = (tv - (qv - w), qv * i - n * w);
    let d = (tv + w) * i - n * w;
    let x = e1 * i;
    assert(d == x + e2) by (nonlinear_arith)
        requires
            d == (tv + w) * i - n * w,
            e1 == tv - (qv - w),
            e2 == qv * i - n * w,
            x == e1 * i,
    ;
    let (si, sn) = (size(i), size(n));
    assert(size(qv) * si == size(qv * i)) by (nonlinear_arith)
        requires
            si == size(i),
    ;
    assert(size(n * w) == sn * w) by (nonlinear_arith)
        requires
            sn == size(n),
            w > 0,
    ;
    assert(size(e2) <= size(e2) * PARTS) by (nonlinear_arith);
    assert(si * BINADE <= si * w) by (nonlinear_arith)
        requires
            si >= 0,
            BINADE <= w,
    ;
    assert(size(qv * i) <= 2 * (sn * w) + si * w);
    assert(size(x) * PARTS <= size(qv) * si + si * w) by (nonlinear_arith)
        requires
            x == e1 * i,
            si == size(i),
            size(e1) * PARTS <= size(qv) + w,
    ;
    assert(size(d) * PARTS <= size(x) * PARTS + size(e2) * PARTS) by (nonlinear_arith)
        requires
            size(d) <= size(x) + size(e2),
    ;
    if final_nav == initial_nav {
        lemma_over_itself(initial_nav);
        lemma_cancels(one);
    }
}

/// The cumulative return after the first `n` bars.
pub open spec fn cumulative(rets: Seq<Real>, n: nat) -> Real
    decreases n,
{
    if n == 0 {
        Real::whole(0)
    } else {
        cumulative(rets, (n - 1) as nat) + rets[n - 1]
    }
}

/// The cumulative return after the first `n` bars is higher than it ever was, zero at
/// the start.
pub open spec fn is_new_high(rets: Seq<Real>, n: nat) -> bool {
    forall|m: nat| m < n ==> cumulative(rets, n) > #[trigger] cumulative(rets, m)
}

proof fn lemma_underwater(rets: Seq<Real>, n: nat)
    requires
        forall|m: nat| m <= n ==> !(#[trigger] cumulative(rets, m)).nan(),
    ensures
        ({
            let u = underwater(rets, n);
            &&& u.cumulative == cumulative(rets, n)
            &&& !u.peak.nan()
            &&& forall|m: nat| m <= n ==> #[trigger] cumulative(rets, m) <= u.peak
            &&& exists|m: nat| m <= n && u.peak == #[trigger] cumulative(rets, m)
        }),
    decreases n,
{
    lemma_whole(0);
    if n > 0 {
        let k = (n - 1) as nat;
        lemma_underwater(rets, k);
        let (s, u) = (underwater(rets, k), underwater(rets, n));
        assert(!cumulative(rets, n).nan());
        assert forall|m: nat| m <= n implies #[trigger] cumulative(rets, m) <= u.peak by {
            if m <= k {
                assert(cumulative(rets, m) <= s.peak);
            }
        }
        if u.peak == s.peak {
            let m = choose|m: nat| m <= k && s.peak == #[trigger] cumulative(rets, m);
            assert(u.peak == cumulative(rets, m));
        }
    } else {
        assert(cumulative(rets, 0) <= underwater(rets, 0).peak);
    }
}

/// The longest drawdown is at least as long as any stretch of bars without a new high
/// of the cumulative return.
pub proof fn drawdown_covers_every_stretch(rets: Seq<Real>, i: nat, j: nat, n: nat)
    requires
        i <= j <= n,
        forall|m: nat| m <= n ==> !(#[trigger] cumulative(rets, m)).nan(),
        forall|m: nat| i < m <= j ==> !#[trigger] is_new_high(rets, m),
    ensures
        underwater(rets, j).current >= j - i,
        underwater(rets, n).longest >= j - i,
    decreases n,
{
    if n > j {
        drawdown_covers_every_stretch(rets, i, j, (n - 1) as nat);
    } else if i < j {
        let k = (j - 1) as nat;
        drawdown_covers_every_stretch(rets, i, k, k);
        lemma_underwater(rets, k);
        let s = underwater(rets, k);
        assert(!is_new_high(rets, j));
        assert(!(cumulative(rets, j) > s.peak)) by {
            if cumulative(rets, j) > s.peak {
                assert forall|m: nat| m < j implies cumulative(rets, j) > #[trigger] cumulative(
                    rets,
                    m,
                ) by {
                    assert(cumulative(rets, m) <= s.peak);
                }
            }
        }
    }
}

/// Over several folds bars and trades add up, the worst drawdown is that of a fold and
/// no fold's is worse, and so is the longest.
pub proof fn aggregate_covers_every_fold(folds: Seq<FoldResult>, i: int)
    requires
        0 <= i < folds.len(),
        forall|k: int| 0 <= k < folds.len() ==> !(#[trigger] folds[k]).max_drawdown.nan(),
    ensures
        ({
            let r = aggregate_of(folds);
            &&& folds[i].max_drawdown <= r.max_drawdown
            &&& folds[i].max_drawdown_duration_bars <= r.max_drawdown_duration_bars
            &&& Real::whole(0) <= r.max_drawdown
            &&& r.max_drawdown.value() == 0 || exists|k: int|
                0 <= k < folds.len() && r.max_drawdown == (#[trigger] folds[k]).max_drawdown
        }),
{
    lemma_worst(folds, folds.len(), i);
}

proof fn lemma_worst(folds: Seq<FoldResult>, n: nat, i: int)
    requires
        n <= folds.len(),
        forall|k: int| 0 <= k < folds.len() ==> !(#[trigger] folds[k]).max_drawdown.nan(),
    ensures
        !worst_drawdown(folds, n).nan(),
        Real::whole(0) <= worst_drawdown(folds, n),
        0 <= i < n ==> folds[i].max_drawdown <= worst_drawdown(folds, n)
            && folds[i].max_drawdown_duration_bars <= longest_drawdown(folds, n),
        worst_drawdown(folds, n).value() == 0 || exists|k: int|
            0 <= k < n && worst_drawdown(folds, n) == (#[trigger] folds[k]).max_drawdown,
    decreases n,
{
    lemma_whole(0);
    assert(0 * pow2(1074) == 0);
    if n > 0 {
        lemma_worst(folds, (n - 1) as nat, i);
        assert(!folds[n - 1].max_drawdown.nan());
        let before = worst_drawdown(folds, (n - 1) as nat);
        if worst_drawdown(folds, n) == before && before.value() != 0 {
            let k = choose|k: int|
                0 <= k < n - 1 && before == (#[trigger] folds[k]).max_drawdown;
            assert(worst_drawdown(folds, n) == folds[k].max_drawdown);
        } else if worst_drawdown(folds, n) != before {
            assert(worst_drawdown(folds, n) == folds[n - 1].max_drawdown);
        }
    }
}

/// One more fold adds its bars and trades, and grows what one unit has become by its
/// return.
pub proof fn aggregate_adds_a_fold(folds: Seq<FoldResult>, x: FoldResult)
    requires
        bars_of(folds.push(x), folds.len() + 1) <= usize::MAX,
        trades_of(folds.push(x), folds.len() + 1) <= usize::MAX,
    ensures
        ({
            let (a, b) = (aggregate_of(folds), aggregate_of(folds.push(x)));
            &&& b.n_bars == a.n_bars + x.n_bars
            &&& b.n_trades == a.n_trades + x.n_trades
            &&& b.total_return == return_product(folds, folds.len()) * (Real::whole(1)
                + x.total_return) - Real::whole(1)
            &&& folds.len() == 0 && x.total_return.zero() ==> b.total_return.value() == 0
        }),
{
    let all = folds.push(x);
    let n = folds.len();
    lemma_prefix(folds, x, n);
    lemma_whole(0);
    lemma_whole(1);
    lemma_pow2_pos(1074);
    assert(0 * pow2(1074) == 0 && 1 * pow2(1074) == pow2(1074));
    if n == 0 && x.total_return.zero() {
        lemma_plus_zero(Real::whole(1), x.total_return);
        lemma_times_one(Real::whole(1));
        lemma_cancels(Real::whole(1));
    }
}

proof fn lemma_prefix(folds: Seq<FoldResult>, x: FoldResult, n: nat)
    requires
        n <= folds.len(),
    ensures
        bars_of(folds.push(x), n) == bars_of(folds, n),
        trades_of(folds.push(x), n) == trades_of(folds, n),
        return_product(folds.push(x), n) == return_product(folds, n),
    decreases n,
{
    if n > 0 {
        lemma_prefix(folds, x, (n - 1) as nat);
        assert(folds.push(x)[n - 1] == folds[n - 1]);
    }
}

} // verus!
