//! Technical indicators of bar series. Each gives the most recent value, or
//! nothing where there are too few bars.
use vstd::prelude::*;
use vstd::slice::slice_subrange;

use crate::num::constants::{infinity, minus_infinity};
use crate::num::elementary::{is_function, ln, ln_of, oracle, Elementary, Oracle};
use crate::num::series::{
    mean, mean_of, squared_deviations, sum, sum_of_seq, sum_squared_deviations,
};
use crate::num::Real;

verus! {

/// The number below which a spread counts as none.
pub open spec fn spec_negligible() -> Real {
    Real::ratio(1, 1_000_000_000_000_000)
}

/// The number below which a spread counts as none.
#[verifier::when_used_as_spec(spec_negligible)]
pub fn negligible() -> (r: Real)
    ensures
        r == spec_negligible(),
{
    Real::ratio(1, 1_000_000_000_000_000)
}

/// The last `n` elements.
pub open spec fn tail_of(s: Seq<Real>, n: nat) -> Seq<Real> {
    s.subrange(s.len() - n, s.len() as int)
}

fn tail(v: &[Real], n: usize) -> (r: &[Real])
    requires
        n <= v@.len(),
    ensures
        r@ == tail_of(v@, n as nat),
        r@.len() == n,
{
    slice_subrange(v, v.len() - n, v.len())
}

/// The average after the first `n` of a series under Wilder's smoothing: the mean
/// of the first `period`, into which each later element enters with a weight of
/// one in `period`.
pub open spec fn smoothed(s: Seq<Real>, period: usize, n: nat) -> Real
    decreases n,
{
    if n <= period {
        mean_of(s.take(period as int))
    } else {
        let p = Real::count(period);
        (smoothed(s, period, (n - 1) as nat) * (p - Real::whole(1)) + s[n - 1]) / p
    }
}

fn wilder(v: &Vec<Real>, period: usize) -> (r: Real)
    requires
        period <= v@.len(),
    ensures
        r == smoothed(v@, period, v@.len()),
{
    let first = slice_subrange(v.as_slice(), 0, period);
    assert(first@ =~= v@.take(period as int));
    let mut avg = mean(first);
    let p = Real::count(period);
    let mut i: usize = period;
    while i < v.len()
        invariant
            period <= i <= v@.len(),
            p == Real::count(period),
            avg == smoothed(v@, period, i as nat),
        decreases v@.len() - i,
    {
        avg = (avg * (p - Real::whole(1)) + v[i]) / p;
        i += 1;
    }
    avg
}

/// The gains from each element to the next, zero for a loss.
pub open spec fn gains_of(s: Seq<Real>) -> Seq<Real> {
    Seq::new(
        (s.len() - 1) as nat,
        |i: int|
            if s[i + 1] - s[i] > Real::whole(0) {
                s[i + 1] - s[i]
            } else {
                Real::whole(0)
            },
    )
}

/// The losses from each element to the next, zero for a gain.
pub open spec fn losses_of(s: Seq<Real>) -> Seq<Real> {
    Seq::new(
        (s.len() - 1) as nat,
        |i: int|
            if s[i + 1] - s[i] > Real::whole(0) {
                Real::whole(0)
            } else {
                (s[i + 1] - s[i]).neg()
            },
    )
}

/// The relative strength index with gains and losses smoothed over `period` moves.
pub open spec fn rsi_of(closes: Seq<Real>, period: usize) -> Option<Real> {
    let n = (closes.len() - 1) as nat;
    let gain = smoothed(gains_of(closes), period, n);
    let loss = smoothed(losses_of(closes), period, n);
    let hundred = Real::whole(100);
    if closes.len() <= period {
        None
    } else if loss < negligible() {
        Some(hundred)
    } else {
        Some(hundred - hundred / (Real::whole(1) + gain / loss))
    }
}

/// Relative strength index after Wilder: one hundred without losses.
pub fn rsi(closes: &[Real], period: usize) -> (r: Option<Real>)
    ensures
        r == rsi_of(closes@, period),
{
    if closes.len() <= period {
        return None;
    }
    let mut gains: Vec<Real> = Vec::new();
    let mut losses: Vec<Real> = Vec::new();
    let mut i: usize = 1;
    while i < closes.len()
        invariant
            1 <= i <= closes@.len(),
            gains@ =~= gains_of(closes@).take(i - 1),
            losses@ =~= losses_of(closes@).take(i - 1),
        decreases closes@.len() - i,
    {
        let diff = closes[i] - closes[i - 1];
        if diff > Real::whole(0) {
            gains.push(diff);
            losses.push(Real::whole(0));
        } else {
            gains.push(Real::whole(0));
            losses.push(diff.neg());
        }
        i += 1;
    }
    assert(gains@ =~= gains_of(closes@));
    assert(losses@ =~= losses_of(closes@));
    let avg_gain = wilder(&gains, period);
    let avg_loss = wilder(&losses, period);
    if avg_loss < negligible() {
        return Some(Real::whole(100));
    }
    let rs = avg_gain / avg_loss;
    Some(Real::whole(100) - Real::whole(100) / (Real::whole(1) + rs))
}

/// The weight of a new element in an exponential average.
pub open spec fn smoothing(period: usize) -> Real {
    Real::whole(2) / (Real::count(period) + Real::whole(1))
}

/// The exponential average of the first `n` elements.
pub open spec fn ema_run(s: Seq<Real>, k: Real, n: nat) -> Real
    decreases n,
{
    if n <= 1 {
        s[0]
    } else {
        s[n - 1] * k + ema_run(s, k, (n - 1) as nat) * (Real::whole(1) - k)
    }
}

/// The exponential average of a sequence.
pub open spec fn ema_of(s: Seq<Real>, period: usize) -> Option<Real> {
    if s.len() == 0 || period == 0 {
        None
    } else {
        Some(ema_run(s, smoothing(period), s.len()))
    }
}

/// Exponential moving average.
pub fn ema(series: &[Real], period: usize) -> (r: Option<Real>)
    ensures
        r == ema_of(series@, period),
{
    if series.len() == 0 || period == 0 {
        return None;
    }
    let k = Real::whole(2) / (Real::count(period) + Real::whole(1));
    let mut val = series[0];
    let mut i: usize = 1;
    while i < series.len()
        invariant
            1 <= i <= series@.len(),
            val == ema_run(series@, k, i as nat),
        decreases series@.len() - i,
    {
        val = series[i] * k + val * (Real::whole(1) - k);
        i += 1;
    }
    Some(val)
}

/// The difference of the fast and the slow average of each beginning of at least
/// nine closes.
pub open spec fn macd_lines(closes: Seq<Real>) -> Seq<Real> {
    Seq::new(
        (closes.len() - 8) as nat,
        |i: int|
            ema_run(closes, smoothing(12), (i + 9) as nat) - ema_run(
                closes,
                smoothing(26),
                (i + 9) as nat,
            ),
    )
}

/// Difference of fast and slow average, its own average, and their difference;
/// nothing with fewer than 35 closes.
pub open spec fn macd_of(closes: Seq<Real>) -> Option<(Real, Real, Real)> {
    let line = macd_lines(closes).last();
    let signal = ema_run(macd_lines(closes), smoothing(9), macd_lines(closes).len());
    if closes.len() < 35 {
        None
    } else {
        Some((line, signal, line - signal))
    }
}

/// Difference of fast and slow average, its own average, and their difference.
pub fn macd(closes: &[Real]) -> (r: Option<(Real, Real, Real)>)
    ensures
        r == macd_of(closes@),
{
    let n: usize = closes.len();
    if n < 35 {
        return None;
    }
    let one = Real::whole(1);
    let kf = Real::whole(2) / (Real::count(12) + one);
    let ks = Real::whole(2) / (Real::count(26) + one);
    let mut fast = closes[0];
    let mut slow = closes[0];
    let mut lines: Vec<Real> = Vec::new();
    let ghost goal = macd_lines(closes@);
    let mut i: usize = 1;
    while i < n
        invariant
            1 <= i <= n,
            n == closes@.len(),
            n >= 35,
            one == Real::whole(1),
            kf == smoothing(12),
            ks == smoothing(26),
            fast == ema_run(closes@, kf, i as nat),
            slow == ema_run(closes@, ks, i as nat),
            goal == macd_lines(closes@),
            lines@ =~= goal.take(if i < 9 {
                0
            } else {
                i - 8
            }),
        decreases n - i,
    {
        fast = closes[i] * kf + fast * (one - kf);
        slow = closes[i] * ks + slow * (one - ks);
        i += 1;
        if i >= 9 {
            lines.push(fast - slow);
        }
    }
    assert(lines@ =~= goal);
    let macd_line = fast - slow;
    let signal = ema(lines.as_slice(), 9)?;
    Some((macd_line, signal, macd_line - signal))
}

/// The standard deviation of a sequence.
pub open spec fn deviation_of(s: Seq<Real>, n: Real) -> Real {
    (sum_of_seq(squared_deviations(s, sum_of_seq(s) / n)) / n).sqrt()
}

/// Where the last close lies in a band of `std_mult` standard deviations around
/// the mean: zero at the lower edge, one at the upper; zero for a band without
/// width.
pub open spec fn bollinger_of(closes: Seq<Real>, period: usize, std_mult: Real) -> Option<Real> {
    let t = tail_of(closes, period as nat);
    let mu = sum_of_seq(t) / Real::count(period);
    let sigma = deviation_of(t, Real::count(period));
    let lower = mu - std_mult * sigma;
    let width = mu + std_mult * sigma - lower;
    if closes.len() < period {
        None
    } else if sigma < negligible() {
        Some(Real::whole(0))
    } else if closes.len() == 0 {
        None
    } else if width < negligible() {
        Some(Real::whole(0))
    } else {
        Some((closes.last() - lower) / width)
    }
}

/// Where the last close lies in its band.
pub fn bollinger_position(closes: &[Real], period: usize, std_mult: Real) -> (r: Option<Real>)
    ensures
        r == bollinger_of(closes@, period, std_mult),
{
    if closes.len() < period {
        return None;
    }
    let t = tail(closes, period);
    let n = Real::count(period);
    let mu = sum(t) / n;
    let sigma = (sum_squared_deviations(t, mu) / n).sqrt();
    if sigma < negligible() {
        return Some(Real::whole(0));
    }
    if closes.len() == 0 {
        return None;
    }
    let last = closes[closes.len() - 1];
    let upper = mu + std_mult * sigma;
    let lower = mu - std_mult * sigma;
    let band_width = upper - lower;
    if band_width < negligible() {
        return Some(Real::whole(0));
    }
    Some((last - lower) / band_width)
}

/// The largest of a bar's range and its distances from the previous close.
pub open spec fn true_range(high: Real, low: Real, before: Real) -> Real {
    (high - low).max((high - before).abs()).max((low - before).abs())
}

/// The true ranges of all bars but the first.
pub open spec fn true_ranges(highs: Seq<Real>, lows: Seq<Real>, closes: Seq<Real>) -> Seq<Real> {
    Seq::new(
        (closes.len() - 1) as nat,
        |i: int| true_range(highs[i + 1], lows[i + 1], closes[i]),
    )
}

/// Average true range after Wilder, smoothed over `period` bars.
pub fn atr(highs: &[Real], lows: &[Real], closes: &[Real], period: usize) -> (r: Option<Real>)
    ensures
        r == if closes@.len() <= period || highs@.len() < closes@.len() || lows@.len()
            < closes@.len() {
            None
        } else {
            Some(
                smoothed(
                    true_ranges(highs@, lows@, closes@),
                    period,
                    (closes@.len() - 1) as nat,
                ),
            )
        },
{
    let n: usize = closes.len();
    if n <= period || highs.len() < n || lows.len() < n {
        return None;
    }
    let ghost goal = true_ranges(highs@, lows@, closes@);
    let mut trs: Vec<Real> = Vec::new();
    let mut i: usize = 1;
    while i < n
        invariant
            1 <= i <= n,
            n == closes@.len(),
            highs@.len() >= n,
            lows@.len() >= n,
            goal == true_ranges(highs@, lows@, closes@),
            trs@ =~= goal.take(i - 1),
        decreases n - i,
    {
        let h = highs[i];
        let l = lows[i];
        let c = closes[i - 1];
        trs.push((h - l).max((h - c).abs()).max((l - c).abs()));
        i += 1;
    }
    assert(trs@ =~= goal);
    Some(wilder(&trs, period))
}

/// The rate of change over the last `period` bars.
pub open spec fn change_of(closes: Seq<Real>, period: usize) -> Option<Real> {
    let n = closes.len();
    let base = closes[n - 1 - period];
    if n <= period || base.abs() < negligible() {
        None
    } else {
        Some(closes[n - 1] / base - Real::whole(1))
    }
}

/// Rate of change over `period` bars.
pub fn roc(closes: &[Real], period: usize) -> (r: Option<Real>)
    ensures
        r == change_of(closes@, period),
{
    let n: usize = closes.len();
    if n <= period {
        return None;
    }
    let base = closes[n - 1 - period];
    if base.abs() < negligible() {
        return None;
    }
    Some(closes[n - 1] / base - Real::whole(1))
}

/// The logarithms of volumes, each raised by one.
pub open spec fn log_volumes(f: Oracle, volumes: Seq<Real>) -> Seq<Real> {
    volumes.map_values(|v: Real| ln_of(f, v + Real::whole(1)))
}

/// The last log volume's distance from the mean in standard deviations.
pub open spec fn volume_z_of(f: Oracle, volumes: Seq<Real>, lookback: usize) -> Option<Real> {
    let t = log_volumes(f, tail_of(volumes, lookback as nat));
    let n = Real::count(lookback);
    let sigma = deviation_of(t, n).max(Real::ratio(1, 10_000_000_000));
    if volumes.len() < lookback || lookback == 0 {
        None
    } else {
        Some((t.last() - sum_of_seq(t) / n) / sigma)
    }
}

/// The last log volume's distance from the mean in standard deviations.
pub fn volume_z_score<M: Fn(Elementary) -> Real>(
    volumes: &[Real],
    lookback: usize,
    math: &M,
) -> (r: Option<Real>)
    requires
        is_function(*math),
    ensures
        r == volume_z_of(oracle(*math), volumes@, lookback),
{
    if volumes.len() < lookback || lookback == 0 {
        return None;
    }
    let t = tail(volumes, lookback);
    let ghost goal = log_volumes(oracle(*math), t@);
    let mut logs: Vec<Real> = Vec::new();
    let mut i: usize = 0;
    while i < t.len()
        invariant
            is_function(*math),
            i <= t@.len(),
            goal == log_volumes(oracle(*math), t@),
            logs@ =~= goal.take(i as int),
        decreases t@.len() - i,
    {
        logs.push(ln(math, t[i] + Real::whole(1)));
        i += 1;
    }
    assert(logs@ =~= goal);
    let n = Real::count(lookback);
    let mu = sum(logs.as_slice()) / n;
    let sigma = (sum_squared_deviations(logs.as_slice(), mu) / n).sqrt().max(
        Real::ratio(1, 10_000_000_000),
    );
    Some((logs[lookback - 1] - mu) / sigma)
}

/// The largest of the first `n` elements.
pub open spec fn highest(s: Seq<Real>, n: nat) -> Real
    decreases n,
{
    if n == 0 {
        minus_infinity()
    } else {
        highest(s, (n - 1) as nat).max(s[n - 1])
    }
}

/// The smallest of the first `n` elements.
pub open spec fn lowest(s: Seq<Real>, n: nat) -> Real
    decreases n,
{
    if n == 0 {
        infinity()
    } else {
        lowest(s, (n - 1) as nat).min(s[n - 1])
    }
}

/// How far the last close lies below the highest of `period` closes, as a
/// fraction of it.
pub open spec fn below_high(closes: Seq<Real>, period: usize) -> Option<Real> {
    let top = highest(tail_of(closes, period as nat), period as nat);
    if closes.len() < period || closes.len() == 0 {
        None
    } else if top < negligible() {
        Some(Real::whole(0))
    } else {
        Some((top - closes.last()) / top)
    }
}

/// How far the last close lies below the highest of `period` closes, as a
/// fraction of it.
pub fn dist_from_rolling_high(closes: &[Real], period: usize) -> (r: Option<Real>)
    ensures
        r == below_high(closes@, period),
{
    let n: usize = closes.len();
    if n < period || n == 0 {
        return None;
    }
    let t = tail(closes, period);
    let mut top = minus_infinity();
    let mut i: usize = 0;
    while i < t.len()
        invariant
            i <= t@.len(),
            top == highest(t@, i as nat),
        decreases t@.len() - i,
    {
        top = top.max(t[i]);
        i += 1;
    }
    let last = closes[n - 1];
    if top < negligible() {
        return Some(Real::whole(0));
    }
    Some((top - last) / top)
}

/// How far the last close lies above the lowest of `period` closes, as a
/// fraction of it.
pub open spec fn above_low(closes: Seq<Real>, period: usize) -> Option<Real> {
    let bottom = lowest(tail_of(closes, period as nat), period as nat);
    if closes.len() < period || closes.len() == 0 {
        None
    } else if bottom.abs() < negligible() {
        Some(Real::whole(0))
    } else {
        Some((closes.last() - bottom) / bottom)
    }
}

/// How far the last close lies above the lowest of `period` closes, as a
/// fraction of it.
pub fn dist_from_rolling_low(closes: &[Real], period: usize) -> (r: Option<Real>)
    ensures
        r == above_low(closes@, period),
{
    let n: usize = closes.len();
    if n < period || n == 0 {
        return None;
    }
    let t = tail(closes, period);
    let mut bottom = infinity();
    let mut i: usize = 0;
    while i < t.len()
        invariant
            i <= t@.len(),
            bottom == lowest(t@, i as nat),
        decreases t@.len() - i,
    {
        bottom = bottom.min(t[i]);
        i += 1;
    }
    let last = closes[n - 1];
    if bottom.abs() < negligible() {
        return Some(Real::whole(0));
    }
    Some((last - bottom) / bottom)
}

/// The products of two sequences' distances from `ca` and `cb`, as far as both
/// reach.
pub open spec fn co_deviations(a: Seq<Real>, b: Seq<Real>, ca: Real, cb: Real) -> Seq<Real> {
    Seq::new(
        if a.len() <= b.len() {
            a.len()
        } else {
            b.len()
        },
        |i: int| (a[i] - ca) * (b[i] - cb),
    )
}

/// The sum of the products of two sequences' distances from `ca` and `cb`.
pub fn sum_co_deviations(a: &[Real], b: &[Real], ca: Real, cb: Real) -> (r: Real)
    ensures
        r == sum_of_seq(co_deviations(a@, b@, ca, cb)),
{
    let ghost goal = co_deviations(a@, b@, ca, cb);
    let mut v: Vec<Real> = Vec::new();
    let mut i: usize = 0;
    while i < a.len() && i < b.len()
        invariant
            i <= a@.len(),
            i <= b@.len(),
            goal == co_deviations(a@, b@, ca, cb),
            v@ =~= goal.take(i as int),
        decreases a@.len() - i,
    {
        v.push((a[i] - ca) * (b[i] - cb));
        i += 1;
    }
    assert(v@ =~= goal);
    sum(v.as_slice())
}

/// The shorter length.
pub open spec fn common_length(a: Seq<Real>, b: Seq<Real>) -> nat {
    if a.len() <= b.len() {
        a.len()
    } else {
        b.len()
    }
}

/// The correlation of two series over the last `period` bars of each; zero where
/// one does not vary.
pub open spec fn correlation_of(r1: Seq<Real>, r2: Seq<Real>, period: usize) -> Option<Real> {
    let n = common_length(r1, r2);
    let (t1, t2) = (tail_of(r1, period as nat), tail_of(r2, period as nat));
    let p = Real::count(period);
    let (mu1, mu2) = (sum_of_seq(t1) / p, sum_of_seq(t2) / p);
    let denom = (sum_of_seq(squared_deviations(t1, mu1)) * sum_of_seq(
        squared_deviations(t2, mu2),
    )).sqrt();
    if n < period {
        None
    } else if denom < negligible() {
        Some(Real::whole(0))
    } else {
        Some(sum_of_seq(co_deviations(t1, t2, mu1, mu2)) / denom)
    }
}

/// Correlation of two return series over `period` bars.
pub fn rolling_correlation(r1: &[Real], r2: &[Real], period: usize) -> (r: Option<Real>)
    ensures
        r == correlation_of(r1@, r2@, period),
{
    let n: usize = if r1.len() <= r2.len() {
        r1.len()
    } else {
        r2.len()
    };
    if n < period {
        return None;
    }
    let t1 = tail(r1, period);
    let t2 = tail(r2, period);
    let mu1 = sum(t1) / Real::count(period);
    let mu2 = sum(t2) / Real::count(period);
    let cov = sum_co_deviations(t1, t2, mu1, mu2);
    let var1 = sum_squared_deviations(t1, mu1);
    let var2 = sum_squared_deviations(t2, mu2);
    let denom = (var1 * var2).sqrt();
    if denom < negligible() {
        return Some(Real::whole(0));
    }
    Some(cov / denom)
}

/// The slope of a series on a benchmark over the last `period` bars of each; zero
/// where the benchmark does not vary.
pub open spec fn beta_of(ra: Seq<Real>, rb: Seq<Real>, period: usize) -> Option<Real> {
    let n = common_length(ra, rb);
    let (ta, tb) = (tail_of(ra, period as nat), tail_of(rb, period as nat));
    let p = Real::count(period);
    let (mu_a, mu_b) = (sum_of_seq(ta) / p, sum_of_seq(tb) / p);
    let var_b = sum_of_seq(squared_deviations(tb, mu_b));
    if n < period {
        None
    } else if var_b < negligible() {
        Some(Real::whole(0))
    } else {
        Some(sum_of_seq(co_deviations(ta, tb, mu_a, mu_b)) / var_b)
    }
}

/// Slope of returns on a benchmark's returns over `period` bars.
pub fn rolling_beta(asset_returns: &[Real], benchmark_returns: &[Real], period: usize) -> (r: Option<
    Real,
>)
    ensures
        r == beta_of(asset_returns@, benchmark_returns@, period),
{
    let n: usize = if asset_returns.len() <= benchmark_returns.len() {
        asset_returns.len()
    } else {
        benchmark_returns.len()
    };
    if n < period {
        return None;
    }
    let ra = tail(asset_returns, period);
    let rb = tail(benchmark_returns, period);
    let mu_b = sum(rb) / Real::count(period);
    let mu_a = sum(ra) / Real::count(period);
    let cov = sum_co_deviations(ra, rb, mu_a, mu_b);
    let var_b = sum_squared_deviations(rb, mu_b);
    if var_b < negligible() {
        return Some(Real::whole(0));
    }
    Some(cov / var_b)
}

} // verus!
