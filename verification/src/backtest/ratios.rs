//! What the ratios of a fold compare.
use vstd::arithmetic::power2::{lemma_pow2_pos, pow2};
use vstd::prelude::*;

use crate::backtest::engine::BacktestBar;
use crate::backtest::metrics::{
    downside_of, losses_of, metrics_of, returns_of, trade_return, wins_of, FoldResult,
    SimulatedTrade,
};
use crate::backtest::pipeline::{learnt_after, signals_after, Learnt, WINDOW};
use crate::data::laws::ln_is_monotone;
use crate::num::elementary::Oracle;
use crate::num::magnitude::lemma_units_zero;
use crate::num::ops::lemma_order_key;
use crate::num::order::{lemma_whole, lemma_whole_order};
use crate::num::rules::{
    is_product, is_quotient, is_sum, lemma_finite_factors, lemma_operations_are_close,
    lemma_small_ratio, lemma_times_zero, lemma_zero_value,
};
use crate::num::series::{mean_of, squared_deviations, sum_of_seq};
use crate::num::Real;

verus! {

/// The sample deviation of returns, kept off zero.
pub open spec fn deviation_of_returns(rets: Seq<Real>) -> Real {
    (sum_of_seq(squared_deviations(rets, mean_of(rets))) / (Real::count(rets.len() as usize)
        - Real::whole(1))).sqrt().max(Real::ratio(1, 10_000_000_000))
}

/// The root mean square of the losses among returns, kept off zero.
pub open spec fn downside_deviation(rets: Seq<Real>) -> Real {
    (sum_of_seq(downside_of(rets)) / Real::count(rets.len() as usize)).sqrt().max(
        Real::ratio(1, 10_000_000_000),
    )
}

/// The number is the mean of returns per deviation, scaled by the root of the bars in a
/// year, up to rounding.
pub open spec fn is_reward(r: Real, rets: Seq<Real>, deviation: Real) -> bool {
    exists|q: Real| #[trigger]
        is_quotient(q, mean_of(rets), deviation) && is_product(r, q, Real::whole(105_120).sqrt())
}

/// The two ratios of a fold compare its mean return with its deviation, and with its losses
/// alone.
pub proof fn ratios_compare_reward_with_risk(
    fold: usize,
    pnls: Seq<Real>,
    trades: Seq<SimulatedTrade>,
    initial: Real,
    last: Real,
    drawdown: Real,
)
    requires
        2 <= pnls.len() <= 0xffff_ffff,
        mean_of(returns_of(pnls, initial)).finite(),
        deviation_of_returns(returns_of(pnls, initial)).finite(),
        downside_deviation(returns_of(pnls, initial)).finite(),
        metrics_of(fold, pnls, trades, initial, last, drawdown).sharpe_ratio.finite(),
        metrics_of(fold, pnls, trades, initial, last, drawdown).sortino_ratio.finite(),
    ensures
        ({
            let r = metrics_of(fold, pnls, trades, initial, last, drawdown);
            let rets = returns_of(pnls, initial);
            &&& is_reward(r.sharpe_ratio, rets, deviation_of_returns(rets))
            &&& is_reward(r.sortino_ratio, rets, downside_deviation(rets))
        }),
{
    let r = metrics_of(fold, pnls, trades, initial, last, drawdown);
    let rets = returns_of(pnls, initial);
    let root = Real::whole(105_120).sqrt();
    let (m, d, e) = (mean_of(rets), deviation_of_returns(rets), downside_deviation(rets));
    lemma_at_least_two(pnls.len() as usize);
    lemma_off_zero(d);
    lemma_off_zero(e);
    let (q, s) = (m / d, m / e);
    assert(r.sharpe_ratio == q * root);
    assert(r.sortino_ratio == s * root);
    lemma_finite_factors(q, root);
    lemma_finite_factors(s, root);
    lemma_operations_are_close(m, d);
    lemma_operations_are_close(m, e);
    lemma_operations_are_close(q, root);
    lemma_operations_are_close(s, root);
    assert(is_quotient(q, m, d));
    assert(is_quotient(s, m, e));
}

proof fn lemma_at_least_two(n: usize)
    requires
        2 <= n <= 0xffff_ffff,
    ensures
        !(Real::count(n) < Real::whole(2)),
        Real::count(n).finite(),
        Real::count(n).value() > 0,
{
    crate::num::order::lemma_count(n);
    lemma_whole_order(2, n as i64);
    lemma_whole(n as i64);
    lemma_whole(2);
    lemma_pow2_pos(1074);
    lemma_order_key(Real::whole(2), Real::count(n));
}

proof fn lemma_off_zero(s: Real)
    requires
        exists|x: Real| s == #[trigger] x.max(Real::ratio(1, 10_000_000_000)),
    ensures
        s.value() > 0,
{
    let x = choose|x: Real| s == #[trigger] x.max(Real::ratio(1, 10_000_000_000));
    lemma_small_ratio(10_000_000_000);
    if !x.nan() {
        lemma_order_key(x, Real::ratio(1, 10_000_000_000));
    }
}

/// Only losses count against the second ratio: a gain counts for nothing, and a loss with
/// its square, up to rounding.
pub proof fn only_losses_count(rets: Seq<Real>, i: int)
    requires
        0 <= i < rets.len(),
        rets[i].finite(),
        (rets[i] * rets[i]).finite(),
    ensures
        rets[i].value() >= 0 ==> downside_of(rets)[i].zero(),
        rets[i].value() < 0 ==> is_product(downside_of(rets)[i], rets[i], rets[i]),
{
    let (x, zero) = (rets[i], Real::whole(0));
    lemma_whole(0);
    assert(0 * pow2(1074) == 0);
    lemma_units_zero(0);
    lemma_zero_value(zero);
    lemma_zero_value(x);
    lemma_order_key(x, zero);
    lemma_operations_are_close(x, x);
    let m = x.min(zero);
    if x.value() >= 0 {
        assert(m.zero());
        lemma_zero_value(m);
        lemma_times_zero(m, m);
    } else {
        assert(m == x);
    }
}

/// A return is a profit over the initial value, up to rounding.
pub proof fn return_is_a_share_of_the_initial_value(pnls: Seq<Real>, initial: Real, i: int)
    requires
        0 <= i < pnls.len(),
        pnls[i].finite(),
        initial.finite(),
        initial.value() != 0,
        returns_of(pnls, initial)[i].finite(),
    ensures
        is_quotient(returns_of(pnls, initial)[i], pnls[i], initial),
{
    lemma_operations_are_close(pnls[i], initial);
}

/// The annual return is the return of the fold times the folds in a year, and the third
/// ratio that over the drawdown, up to rounding.
pub proof fn annual_return_scales_with_the_year(
    fold: usize,
    pnls: Seq<Real>,
    trades: Seq<SimulatedTrade>,
    initial: Real,
    last: Real,
    drawdown: Real,
)
    requires
        2 <= pnls.len() <= 0xffff_ffff,
        Real::whole(1) <= initial,
        initial.finite(),
        last.finite(),
        (last / initial).finite(),
        metrics_of(fold, pnls, trades, initial, last, drawdown).annualized_return.finite(),
        metrics_of(fold, pnls, trades, initial, last, drawdown).calmar_ratio.finite(),
        drawdown.finite(),
    ensures
        ({
            let r = metrics_of(fold, pnls, trades, initial, last, drawdown);
            let n = Real::count(pnls.len() as usize);
            &&& exists|growth: Real, gain: Real, folds: Real|
                #![trigger is_quotient(growth, last, initial), is_sum(
                    gain,
                    growth,
                    Real::whole(1).neg(),
                ), is_quotient(folds, Real::whole(105_120), n)]
                is_quotient(growth, last, initial) && is_sum(gain, growth, Real::whole(1).neg())
                    && is_quotient(folds, Real::whole(105_120), n) && is_product(
                    r.annualized_return,
                    gain,
                    folds,
                )
            &&& Real::ratio(1, 10_000_000_000) < drawdown ==> is_quotient(
                r.calmar_ratio,
                r.annualized_return,
                drawdown,
            )
            &&& r.max_drawdown == drawdown
            &&& r.fold_idx == fold
            &&& r.n_bars == pnls.len()
        }),
{
    let r = metrics_of(fold, pnls, trades, initial, last, drawdown);
    let n = Real::count(pnls.len() as usize);
    let one = Real::whole(1);
    lemma_at_least_two(pnls.len() as usize);
    lemma_whole(1);
    lemma_pow2_pos(1074);
    assert(1 * pow2(1074) == pow2(1074));
    lemma_order_key(one, initial);
    if initial.max(one) != initial {
        crate::num::rules::lemma_same_value(initial, one);
    }
    lemma_whole(105_120);
    let growth = last / initial;
    let gain = growth - one;
    let folds = Real::whole(105_120) / n;
    assert(r.annualized_return == gain * folds);
    lemma_finite_factors(gain, folds);
    lemma_operations_are_close(last, initial);
    lemma_operations_are_close(growth, one);
    lemma_operations_are_close(Real::whole(105_120), n);
    lemma_operations_are_close(gain, folds);
    assert(is_quotient(growth, last, initial) && is_sum(gain, growth, one.neg()) && is_quotient(
        folds,
        Real::whole(105_120),
        n,
    ));
    lemma_small_ratio(10_000_000_000);
    if Real::ratio(1, 10_000_000_000) < drawdown {
        lemma_operations_are_close(r.annualized_return, drawdown);
    }
}

/// The return of a trade times its size is what it realized, up to rounding.
pub proof fn trade_return_is_a_share_of_its_size(t: SimulatedTrade)
    requires
        Real::whole(1) <= t.size_usd,
        t.size_usd.finite(),
        t.realized_pnl.finite(),
        trade_return(t).finite(),
    ensures
        is_quotient(trade_return(t), t.realized_pnl, t.size_usd),
{
    let one = Real::whole(1);
    lemma_whole(1);
    lemma_pow2_pos(1074);
    assert(1 * pow2(1074) == pow2(1074));
    lemma_order_key(one, t.size_usd);
    if t.size_usd.max(one) != t.size_usd {
        crate::num::rules::lemma_same_value(t.size_usd, one);
    }
    lemma_operations_are_close(t.realized_pnl, t.size_usd);
}

/// A further trade that wins is among the wins with its return, and one that does not is
/// among the losses with the size of its return; neither changes the others.
pub proof fn trade_is_a_win_or_a_loss(trades: Seq<SimulatedTrade>, t: SimulatedTrade)
    ensures
        ({
            let n = trades.len();
            let all = trades.push(t);
            &&& t.realized_pnl > Real::whole(0) ==> wins_of(all, n + 1) == wins_of(trades, n).push(
                trade_return(t),
            ) && losses_of(all, n + 1) == losses_of(trades, n)
            &&& !(t.realized_pnl > Real::whole(0)) ==> wins_of(all, n + 1) == wins_of(trades, n)
                && losses_of(all, n + 1) == losses_of(trades, n).push(trade_return(t).abs())
        }),
{
    lemma_first_trades(trades, trades.push(t), trades.len());
}

proof fn lemma_first_trades(a: Seq<SimulatedTrade>, b: Seq<SimulatedTrade>, n: nat)
    requires
        n <= a.len(),
        n <= b.len(),
        forall|i: int| 0 <= i < n ==> a[i] == #[trigger] b[i],
    ensures
        wins_of(a, n) == wins_of(b, n),
        losses_of(a, n) == losses_of(b, n),
    decreases n,
{
    if n > 0 {
        lemma_first_trades(a, b, (n - 1) as nat);
    }
}

/// The annual turnover is that of the fold times the folds in a year, up to rounding; a
/// fold without bars has none.
pub proof fn turnover_scales_with_the_year(r: FoldResult)
    requires
        r.n_bars <= 0xffff_ffff,
        r.turnover_per_year().finite(),
    ensures
        r.n_bars == 0 ==> r.turnover_per_year() == Real::whole(0),
        r.n_bars > 0 ==> exists|folds: Real| #[trigger]
            is_quotient(folds, Real::whole(105_120), Real::count(r.n_bars)) && is_product(
                r.turnover_per_year(),
                r.total_turnover,
                folds,
            ),
{
    if r.n_bars > 0 {
        let n = Real::count(r.n_bars);
        crate::num::order::lemma_count(r.n_bars);
        lemma_whole(r.n_bars as i64);
        lemma_whole(105_120);
        lemma_pow2_pos(1074);
        let k = r.n_bars as int;
        let w = pow2(1074) as int;
        assert(k * w > 0) by (nonlinear_arith)
            requires
                k > 0,
                w > 0,
        ;
        let folds = Real::whole(105_120) / n;
        lemma_finite_factors(r.total_turnover, folds);
        lemma_operations_are_close(Real::whole(105_120), n);
        lemma_operations_are_close(r.total_turnover, folds);
        assert(is_quotient(folds, Real::whole(105_120), n));
    }
}

/// The log return of a bar is zero where its close is the one before, and no less for a
/// higher close, where the logarithm never falls.
pub proof fn log_return_rises_with_the_close(
    f: Oracle,
    a: BacktestBar,
    b: BacktestBar,
    before: Real,
)
    requires
        ln_is_monotone(f),
        Real::ratio(1, 10_000_000_000) < before,
        before.finite(),
        Real::whole(0) <= a.close,
        a.close <= b.close,
        b.close.finite(),
    ensures
        a.return_from(before, f) <= b.return_from(before, f),
        a.close == before ==> a.return_from(before, f) == Real::whole(0),
{
    lemma_whole(0);
    assert(0 * pow2(1074) == 0);
    lemma_small_ratio(10_000_000_000);
    lemma_zero_value(before);
    crate::num::rules::lemma_over_itself(before);
    crate::num::order::lemma_div_monotone(a.close, b.close, before);
}

/// A price enters the window at its end and the filter with it; the frequencies have a
/// signal only once the window is full.
pub proof fn price_enters_the_window(f: Oracle, l: Learnt, price: Real)
    requires
        l.history.len() == WINDOW,
        l.seen <= WINDOW,
    ensures
        ({
            let r = learnt_after(f, l, price);
            let s = signals_after(f, l, price);
            &&& r.history.len() == l.history.len()
            &&& r.history.last() == price
            &&& forall|i: int| 0 <= i < WINDOW - 1 ==> #[trigger] r.history[i] == l.history[i + 1]
            &&& r.seen == if l.seen < WINDOW {
                l.seen + 1
            } else {
                l.seen
            }
            &&& r.kf == l.kf.updated(f, price)
            &&& s.len() == 2
            &&& s[0] is Some
            &&& s[1] is Some <==> r.seen == WINDOW
            &&& s[0]->0.predictive_mean == r.kf.summary(f).predictive_mean()
        }),
{
    reveal(learnt_after);
}

} // verus!
