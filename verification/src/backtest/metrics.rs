//! Performance metrics of simulated trading.
use vstd::prelude::*;

use crate::num::series::{
    mean_if_any, mean_or_zero, squared_deviations, sum, sum_of_seq, sum_squared_deviations,
};
use crate::num::Real;

verus! {

/// A simulated trade.
#[derive(Debug, Clone)]
pub struct SimulatedTrade {
    pub asset: String,
    pub entry_bar: usize,
    pub exit_bar: usize,
    /// True for a long position.
    pub direction: bool,
    pub entry_price: Real,
    pub exit_price: Real,
    pub size_usd: Real,
    pub leverage: Real,
    pub realized_pnl: Real,
    pub transaction_cost_usd: Real,
    pub fill_fraction: Real,
}

/// Performance of one fold.
#[derive(Debug, Clone, Copy)]
pub struct FoldResult {
    pub fold_idx: usize,
    pub n_bars: usize,
    pub n_trades: usize,
    pub total_return: Real,
    pub annualized_return: Real,
    pub sharpe_ratio: Real,
    pub sortino_ratio: Real,
    pub calmar_ratio: Real,
    pub max_drawdown: Real,
    pub max_drawdown_duration_bars: usize,
    pub hit_rate: Real,
    pub avg_win_pct: Real,
    pub avg_loss_pct: Real,
    pub total_turnover: Real,
    pub total_transaction_costs_usd: Real,
}

/// The result of a fold without bars.
pub open spec fn empty_fold(fold_idx: usize) -> FoldResult {
    let o = Real::whole(0);
    FoldResult {
        fold_idx,
        n_bars: 0,
        n_trades: 0,
        total_return: o,
        annualized_return: o,
        sharpe_ratio: o,
        sortino_ratio: o,
        calmar_ratio: o,
        max_drawdown: o,
        max_drawdown_duration_bars: 0,
        hit_rate: o,
        avg_win_pct: o,
        avg_loss_pct: o,
        total_turnover: o,
        total_transaction_costs_usd: o,
    }
}

impl Default for FoldResult {
    fn default() -> (r: Self)
        ensures
            r == empty_fold(0),
    {
        let o = Real::whole(0);
        FoldResult {
            fold_idx: 0,
            n_bars: 0,
            n_trades: 0,
            total_return: o,
            annualized_return: o,
            sharpe_ratio: o,
            sortino_ratio: o,
            calmar_ratio: o,
            max_drawdown: o,
            max_drawdown_duration_bars: 0,
            hit_rate: o,
            avg_win_pct: o,
            avg_loss_pct: o,
            total_turnover: o,
            total_transaction_costs_usd: o,
        }
    }
}

impl FoldResult {
    /// The turnover at the same pace over a year; zero without bars.
    pub open spec fn turnover_per_year(&self) -> Real {
        if self.n_bars == 0 {
            Real::whole(0)
        } else {
            self.total_turnover * (bars_per_year() / Real::count(self.n_bars))
        }
    }

    /// The turnover at the same pace over a year; zero without bars.
    pub fn annualized_turnover(&self) -> (r: Real)
        ensures
            r == self.turnover_per_year(),
    {
        if self.n_bars == 0 {
            Real::whole(0)
        } else {
            self.total_turnover * (bars_per_year() / Real::count(self.n_bars))
        }
    }
}

/// Results of all folds.
#[derive(Debug)]
pub struct BacktestResult {
    pub folds: Vec<FoldResult>,
    /// Times and net asset values.
    pub equity_curve: Vec<(u64, Real)>,
    pub trades: Vec<SimulatedTrade>,
}

/// A number of a fold that is averaged or added up over folds.
pub enum Metric {
    AnnualizedReturn,
    Sharpe,
    Sortino,
    Calmar,
    HitRate,
    AvgWin,
    AvgLoss,
    Turnover,
    Costs,
}

/// The value of a metric.
pub open spec fn metric_of(r: FoldResult, m: Metric) -> Real {
    match m {
        Metric::AnnualizedReturn => r.annualized_return,
        Metric::Sharpe => r.sharpe_ratio,
        Metric::Sortino => r.sortino_ratio,
        Metric::Calmar => r.calmar_ratio,
        Metric::HitRate => r.hit_rate,
        Metric::AvgWin => r.avg_win_pct,
        Metric::AvgLoss => r.avg_loss_pct,
        Metric::Turnover => r.total_turnover,
        Metric::Costs => r.total_transaction_costs_usd,
    }
}

/// The values of a metric over folds.
pub open spec fn column(folds: Seq<FoldResult>, m: Metric) -> Seq<Real> {
    folds.map_values(|r: FoldResult| metric_of(r, m))
}

/// The number of bars of the first `n` folds.
pub open spec fn bars_of(folds: Seq<FoldResult>, n: nat) -> nat
    decreases n,
{
    if n == 0 {
        0
    } else {
        bars_of(folds, (n - 1) as nat) + folds[n - 1].n_bars as nat
    }
}

/// The number of trades of the first `n` folds.
pub open spec fn trades_of(folds: Seq<FoldResult>, n: nat) -> nat
    decreases n,
{
    if n == 0 {
        0
    } else {
        trades_of(folds, (n - 1) as nat) + folds[n - 1].n_trades as nat
    }
}

/// What one unit grows to over the first `n` folds, one after the other.
pub open spec fn return_product(folds: Seq<FoldResult>, n: nat) -> Real
    decreases n,
{
    if n == 0 {
        Real::whole(1)
    } else {
        return_product(folds, (n - 1) as nat) * (Real::whole(1) + folds[n - 1].total_return)
    }
}

/// The largest drawdown of the first `n` folds.
pub open spec fn worst_drawdown(folds: Seq<FoldResult>, n: nat) -> Real
    decreases n,
{
    if n == 0 {
        Real::whole(0)
    } else {
        worst_drawdown(folds, (n - 1) as nat).max(folds[n - 1].max_drawdown)
    }
}

/// The longest drawdown of the first `n` folds.
pub open spec fn longest_drawdown(folds: Seq<FoldResult>, n: nat) -> usize
    decreases n,
{
    if n == 0 {
        0
    } else {
        let before = longest_drawdown(folds, (n - 1) as nat);
        if folds[n - 1].max_drawdown_duration_bars > before {
            folds[n - 1].max_drawdown_duration_bars
        } else {
            before
        }
    }
}

/// The mean of a metric over folds.
pub open spec fn average(folds: Seq<FoldResult>, m: Metric) -> Real {
    sum_of_seq(column(folds, m)) / Real::count(folds.len() as usize)
}

/// The statistics over all folds.
pub open spec fn aggregate_of(folds: Seq<FoldResult>) -> FoldResult {
    let n = folds.len();
    if n == 0 {
        empty_fold(0)
    } else {
        FoldResult {
            fold_idx: 0,
            n_bars: bars_of(folds, n) as usize,
            n_trades: trades_of(folds, n) as usize,
            total_return: return_product(folds, n) - Real::whole(1),
            annualized_return: average(folds, Metric::AnnualizedReturn),
            sharpe_ratio: average(folds, Metric::Sharpe),
            sortino_ratio: average(folds, Metric::Sortino),
            calmar_ratio: average(folds, Metric::Calmar),
            max_drawdown: worst_drawdown(folds, n),
            max_drawdown_duration_bars: longest_drawdown(folds, n),
            hit_rate: average(folds, Metric::HitRate),
            avg_win_pct: average(folds, Metric::AvgWin),
            avg_loss_pct: average(folds, Metric::AvgLoss),
            total_turnover: sum_of_seq(column(folds, Metric::Turnover)),
            total_transaction_costs_usd: sum_of_seq(column(folds, Metric::Costs)),
        }
    }
}

fn metric(r: &FoldResult, m: &Metric) -> (v: Real)
    ensures
        v == metric_of(*r, *m),
{
    match m {
        Metric::AnnualizedReturn => r.annualized_return,
        Metric::Sharpe => r.sharpe_ratio,
        Metric::Sortino => r.sortino_ratio,
        Metric::Calmar => r.calmar_ratio,
        Metric::HitRate => r.hit_rate,
        Metric::AvgWin => r.avg_win_pct,
        Metric::AvgLoss => r.avg_loss_pct,
        Metric::Turnover => r.total_turnover,
        Metric::Costs => r.total_transaction_costs_usd,
    }
}

fn column_sum(folds: &Vec<FoldResult>, m: Metric) -> (r: Real)
    ensures
        r == sum_of_seq(column(folds@, m)),
{
    let mut v: Vec<Real> = Vec::new();
    let mut i: usize = 0;
    while i < folds.len()
        invariant
            i <= folds@.len(),
            v@ =~= column(folds@, m).take(i as int),
        decreases folds@.len() - i,
    {
        v.push(metric(&folds[i], &m));
        i += 1;
    }
    assert(v@ =~= column(folds@, m));
    sum(v.as_slice())
}

proof fn lemma_partial_counts(folds: Seq<FoldResult>, i: nat, n: nat)
    requires
        i <= n,
    ensures
        bars_of(folds, i) <= bars_of(folds, n),
        trades_of(folds, i) <= trades_of(folds, n),
    decreases n,
{
    if i < n {
        lemma_partial_counts(folds, i, (n - 1) as nat);
    }
}

impl BacktestResult {
    /// A result without folds.
    pub fn new() -> (r: Self)
        ensures
            r.folds@.len() == 0,
            r.equity_curve@.len() == 0,
            r.trades@.len() == 0,
    {
        Self { folds: Vec::new(), equity_curve: Vec::new(), trades: Vec::new() }
    }

    /// The statistics over all folds.
    pub fn aggregate(&self) -> (r: FoldResult)
        requires
            bars_of(self.folds@, self.folds@.len()) <= usize::MAX,
            trades_of(self.folds@, self.folds@.len()) <= usize::MAX,
        ensures
            r == aggregate_of(self.folds@),
    {
        if self.folds.len() == 0 {
            return FoldResult::default();
        }
        let n = Real::count(self.folds.len());
        let mut n_bars: usize = 0;
        let mut n_trades: usize = 0;
        let mut product = Real::whole(1);
        let mut max_drawdown = Real::whole(0);
        let mut longest: usize = 0;
        let mut i: usize = 0;
        while i < self.folds.len()
            invariant
                i <= self.folds@.len(),
                bars_of(self.folds@, self.folds@.len()) <= usize::MAX,
                trades_of(self.folds@, self.folds@.len()) <= usize::MAX,
                n_bars == bars_of(self.folds@, i as nat),
                n_trades == trades_of(self.folds@, i as nat),
                product == return_product(self.folds@, i as nat),
                max_drawdown == worst_drawdown(self.folds@, i as nat),
                longest == longest_drawdown(self.folds@, i as nat),
            decreases self.folds@.len() - i,
        {
            let fold = self.folds[i];
            proof {
                lemma_partial_counts(self.folds@, (i + 1) as nat, self.folds@.len());
            }
            n_bars += fold.n_bars;
            n_trades += fold.n_trades;
            product = product * (Real::whole(1) + fold.total_return);
            max_drawdown = max_drawdown.max(fold.max_drawdown);
            if fold.max_drawdown_duration_bars > longest {
                longest = fold.max_drawdown_duration_bars;
            }
            i += 1;
        }
        FoldResult {
            fold_idx: 0,
            n_bars,
            n_trades,
            total_return: product - Real::whole(1),
            annualized_return: column_sum(&self.folds, Metric::AnnualizedReturn) / n,
            sharpe_ratio: column_sum(&self.folds, Metric::Sharpe) / n,
            sortino_ratio: column_sum(&self.folds, Metric::Sortino) / n,
            calmar_ratio: column_sum(&self.folds, Metric::Calmar) / n,
            max_drawdown,
            max_drawdown_duration_bars: longest,
            hit_rate: column_sum(&self.folds, Metric::HitRate) / n,
            avg_win_pct: column_sum(&self.folds, Metric::AvgWin) / n,
            avg_loss_pct: column_sum(&self.folds, Metric::AvgLoss) / n,
            total_turnover: column_sum(&self.folds, Metric::Turnover),
            total_transaction_costs_usd: column_sum(&self.folds, Metric::Costs),
        }
    }
}

/// Bars of five minutes in a year.
pub open spec fn spec_bars_per_year() -> Real {
    Real::whole(105_120)
}

/// Bars of five minutes in a year.
#[verifier::when_used_as_spec(spec_bars_per_year)]
pub fn bars_per_year() -> (r: Real)
    ensures
        r == spec_bars_per_year(),
{
    Real::whole(105_120)
}

/// The profits as fractions of the initial net asset value.
pub open spec fn returns_of(pnls: Seq<Real>, initial_nav: Real) -> Seq<Real> {
    pnls.map_values(|p: Real| p / initial_nav)
}

/// The squares of the negative returns, zero for the others.
pub open spec fn downside_of(rets: Seq<Real>) -> Seq<Real> {
    rets.map_values(|r: Real| r.min(Real::whole(0)) * r.min(Real::whole(0)))
}

/// Running state of the drawdown duration.
pub struct Underwater {
    pub cumulative: Real,
    pub peak: Real,
    pub current: nat,
    pub longest: nat,
}

/// How long the cumulative return has been, and was at most, below its peak
/// after the first `n` bars.
pub open spec fn underwater(rets: Seq<Real>, n: nat) -> Underwater
    decreases n,
{
    if n == 0 {
        Underwater { cumulative: Real::whole(0), peak: Real::whole(0), current: 0, longest: 0 }
    } else {
        let s = underwater(rets, (n - 1) as nat);
        let c = s.cumulative + rets[n - 1];
        if c > s.peak {
            Underwater { cumulative: c, peak: c, current: 0, longest: s.longest }
        } else {
            Underwater {
                cumulative: c,
                peak: s.peak,
                current: s.current + 1,
                longest: if s.current + 1 > s.longest {
                    s.current + 1
                } else {
                    s.longest
                },
            }
        }
    }
}

/// The profit of a trade over its size.
pub open spec fn trade_return(t: SimulatedTrade) -> Real {
    t.realized_pnl / t.size_usd.max(Real::whole(1))
}

/// The returns of the winning ones of the first `n` trades.
pub open spec fn wins_of(trades: Seq<SimulatedTrade>, n: nat) -> Seq<Real>
    decreases n,
{
    if n == 0 {
        Seq::empty()
    } else if trades[n - 1].realized_pnl > Real::whole(0) {
        wins_of(trades, (n - 1) as nat).push(trade_return(trades[n - 1]))
    } else {
        wins_of(trades, (n - 1) as nat)
    }
}

/// The sizes of the returns of the other ones of the first `n` trades.
pub open spec fn losses_of(trades: Seq<SimulatedTrade>, n: nat) -> Seq<Real>
    decreases n,
{
    if n == 0 {
        Seq::empty()
    } else if trades[n - 1].realized_pnl > Real::whole(0) {
        losses_of(trades, (n - 1) as nat)
    } else {
        losses_of(trades, (n - 1) as nat).push(trade_return(trades[n - 1]).abs())
    }
}

/// The metrics of a fold; with fewer than two bars there are none.
pub open spec fn metrics_of(
    fold_idx: usize,
    pnls: Seq<Real>,
    trades: Seq<SimulatedTrade>,
    initial_nav: Real,
    final_nav: Real,
    max_drawdown: Real,
) -> FoldResult {
    let n = Real::count(pnls.len() as usize);
    let one = Real::whole(1);
    let rets = returns_of(pnls, initial_nav);
    let mean_ret = sum_of_seq(rets) / n;
    let tiny = Real::ratio(1, 10_000_000_000);
    let std_ret = (sum_of_seq(squared_deviations(rets, mean_ret)) / (n - one)).sqrt().max(tiny);
    let downside_std = (sum_of_seq(downside_of(rets)) / n).sqrt().max(tiny);
    let ann = (final_nav / initial_nav.max(one) - one) * (bars_per_year() / n);
    let wins = wins_of(trades, trades.len());
    if n < Real::whole(2) {
        empty_fold(fold_idx)
    } else {
        FoldResult {
            fold_idx,
            n_bars: pnls.len() as usize,
            n_trades: trades.len() as usize,
            total_return: final_nav / initial_nav - one,
            annualized_return: ann,
            sharpe_ratio: mean_ret / std_ret * bars_per_year().sqrt(),
            sortino_ratio: mean_ret / downside_std * bars_per_year().sqrt(),
            calmar_ratio: if max_drawdown > tiny {
                ann / max_drawdown
            } else {
                Real::whole(0)
            },
            max_drawdown,
            max_drawdown_duration_bars: underwater(rets, rets.len()).longest as usize,
            hit_rate: if trades.len() > 0 {
                Real::count(wins.len() as usize) / Real::count(trades.len() as usize)
            } else {
                Real::whole(0)
            },
            avg_win_pct: mean_or_zero(wins),
            avg_loss_pct: mean_or_zero(losses_of(trades, trades.len())),
            total_turnover: sum_of_seq(trades.map_values(|t: SimulatedTrade| t.size_usd)),
            total_transaction_costs_usd: sum_of_seq(
                trades.map_values(|t: SimulatedTrade| t.transaction_cost_usd),
            ),
        }
    }
}

/// The longest drawdown is no longer than the fold.
pub proof fn drawdown_fits_fold(rets: Seq<Real>, n: nat)
    ensures
        underwater(rets, n).current <= n,
        underwater(rets, n).longest <= n,
    decreases n,
{
    if n > 0 {
        drawdown_fits_fold(rets, (n - 1) as nat);
    }
}

/// Every trade is a win or not.
pub proof fn trades_are_wins_or_losses(trades: Seq<SimulatedTrade>, n: nat)
    ensures
        wins_of(trades, n).len() + losses_of(trades, n).len() == n,
    decreases n,
{
    if n > 0 {
        trades_are_wins_or_losses(trades, (n - 1) as nat);
    }
}

fn drawdown_duration(rets: &Vec<Real>) -> (r: usize)
    ensures
        r == underwater(rets@, rets@.len()).longest,
{
    let mut longest: usize = 0;
    let mut current: usize = 0;
    let mut peak = Real::whole(0);
    let mut cumulative = Real::whole(0);
    let mut i: usize = 0;
    while i < rets.len()
        invariant
            i <= rets@.len(),
            current <= i,
            longest <= i,
            underwater(rets@, i as nat) == (Underwater {
                cumulative,
                peak,
                current: current as nat,
                longest: longest as nat,
            }),
        decreases rets@.len() - i,
    {
        cumulative = cumulative + rets[i];
        if cumulative > peak {
            peak = cumulative;
            current = 0;
        } else {
            current += 1;
            if current > longest {
                longest = current;
            }
        }
        i += 1;
    }
    longest
}

/// The metrics of a fold.
pub fn compute_fold_metrics(
    fold_idx: usize,
    pnl_series: &[Real],
    trades: &[SimulatedTrade],
    initial_nav: Real,
    final_nav: Real,
    max_drawdown: Real,
) -> (r: FoldResult)
    ensures
        r == metrics_of(fold_idx, pnl_series@, trades@, initial_nav, final_nav, max_drawdown),
{
    let n = Real::count(pnl_series.len());
    let one = Real::whole(1);
    if n < Real::whole(2) {
        let mut r = FoldResult::default();
        r.fold_idx = fold_idx;
        return r;
    }
    let ghost all = returns_of(pnl_series@, initial_nav);
    let mut rets: Vec<Real> = Vec::new();
    let mut down: Vec<Real> = Vec::new();
    let mut i: usize = 0;
    while i < pnl_series.len()
        invariant
            i <= pnl_series@.len(),
            all == returns_of(pnl_series@, initial_nav),
            rets@ =~= all.take(i as int),
            down@ =~= downside_of(all).take(i as int),
        decreases pnl_series@.len() - i,
    {
        let ret = pnl_series[i] / initial_nav;
        rets.push(ret);
        let d = ret.min(Real::whole(0));
        down.push(d * d);
        i += 1;
    }
    assert(rets@ =~= all);
    assert(down@ =~= downside_of(all));
    let tiny = Real::ratio(1, 10_000_000_000);
    let mean_ret = sum(rets.as_slice()) / n;
    let var_ret = sum_squared_deviations(rets.as_slice(), mean_ret) / (n - one);
    let std_ret = var_ret.sqrt().max(tiny);
    let downside_std = (sum(down.as_slice()) / n).sqrt().max(tiny);
    let ann_return = (final_nav / initial_nav.max(one) - one) * (bars_per_year() / n);
    let calmar = if max_drawdown > tiny {
        ann_return / max_drawdown
    } else {
        Real::whole(0)
    };
    let mut wins: Vec<Real> = Vec::new();
    let mut losses: Vec<Real> = Vec::new();
    let mut sizes: Vec<Real> = Vec::new();
    let mut costs: Vec<Real> = Vec::new();
    let ghost all_sizes = trades@.map_values(|t: SimulatedTrade| t.size_usd);
    let ghost all_costs = trades@.map_values(|t: SimulatedTrade| t.transaction_cost_usd);
    let mut j: usize = 0;
    while j < trades.len()
        invariant
            j <= trades@.len(),
            wins@ == wins_of(trades@, j as nat),
            losses@ == losses_of(trades@, j as nat),
            all_sizes == trades@.map_values(|t: SimulatedTrade| t.size_usd),
            all_costs == trades@.map_values(|t: SimulatedTrade| t.transaction_cost_usd),
            sizes@ =~= all_sizes.take(j as int),
            costs@ =~= all_costs.take(j as int),
        decreases trades@.len() - j,
    {
        let t = &trades[j];
        let ret = t.realized_pnl / t.size_usd.max(Real::whole(1));
        if t.realized_pnl > Real::whole(0) {
            wins.push(ret);
        } else {
            losses.push(ret.abs());
        }
        sizes.push(t.size_usd);
        costs.push(t.transaction_cost_usd);
        j += 1;
    }
    assert(sizes@ =~= all_sizes);
    assert(costs@ =~= all_costs);
    let hit_rate = if trades.len() > 0 {
        Real::count(wins.len()) / Real::count(trades.len())
    } else {
        Real::whole(0)
    };
    FoldResult {
        fold_idx,
        n_bars: pnl_series.len(),
        n_trades: trades.len(),
        total_return: final_nav / initial_nav - one,
        annualized_return: ann_return,
        sharpe_ratio: mean_ret / std_ret * bars_per_year().sqrt(),
        sortino_ratio: mean_ret / downside_std * bars_per_year().sqrt(),
        calmar_ratio: calmar,
        max_drawdown,
        max_drawdown_duration_bars: drawdown_duration(&rets),
        hit_rate,
        avg_win_pct: mean_if_any(wins.as_slice()),
        avg_loss_pct: mean_if_any(losses.as_slice()),
        total_turnover: sum(sizes.as_slice()),
        total_transaction_costs_usd: sum(costs.as_slice()),
    }
}

} // verus!
