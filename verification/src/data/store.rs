//! Bars, order books, trades and funding samples, per asset.
use std::collections::VecDeque;
use vstd::prelude::*;

use crate::data::table::Table;
use crate::num::elementary::{is_function, ln, ln_of, oracle, Elementary, Oracle};
use crate::num::series::{sum, sum_of_seq};
use crate::num::Real;

verus! {

/// A decimal number as the exchange sends it, carried through unread.
#[verifier::external_type_specification]
#[verifier::external_body]
pub struct ExDecimal(rust_decimal::Decimal);

/// A candle as the exchange sends it; a number is missing where it does not
/// convert.
#[derive(Debug, Clone)]
pub struct Candle {
    pub coin: String,
    pub interval: String,
    pub open_time: u64,
    pub open: Option<Real>,
    pub high: Option<Real>,
    pub low: Option<Real>,
    pub close: Option<Real>,
    pub volume: Option<Real>,
    pub num_trades: u64,
}

/// The side that a trade took.
#[derive(Debug, Clone, Copy, PartialEq, Eq, Structural)]
pub enum Side {
    Bid,
    Ask,
}

/// A trade as the exchange sends it.
#[derive(Debug, Clone)]
pub struct Trade {
    pub coin: String,
    pub time: u64,
    pub side: Side,
    /// Size; missing where it does not convert.
    pub sz: Option<Real>,
}

/// One price level of an order book; a number is missing where it does not
/// convert.
#[derive(Debug, Clone, Copy)]
pub struct BookLevel {
    pub px: Option<Real>,
    pub sz: Option<Real>,
}

/// An order book as the exchange sends it.
#[derive(Debug)]
pub struct L2Book {
    pub coin: String,
    pub time: u64,
    pub levels: [Vec<BookLevel>; 2],
}

/// The number, or zero where it is missing.
pub open spec fn spec_or_zero(x: Option<Real>) -> Real {
    match x {
        Some(v) => v,
        None => Real::whole(0),
    }
}

/// The number, or zero where it is missing.
#[verifier::when_used_as_spec(spec_or_zero)]
pub fn or_zero(x: Option<Real>) -> (r: Real)
    ensures
        r == spec_or_zero(x),
{
    match x {
        Some(v) => v,
        None => Real::whole(0),
    }
}

/// A single bar with its log return.
#[derive(Debug, Clone, Copy)]
pub struct Bar {
    pub open_time: u64,
    pub open: Real,
    pub high: Real,
    pub low: Real,
    pub close: Real,
    pub volume: Real,
    pub num_trades: u64,
    pub log_return: Real,
}

/// The log return from the previous close; zero where there is no positive one.
pub open spec fn log_return_of(f: Oracle, close: Real, prev_close: Option<Real>) -> Real {
    match prev_close {
        Some(p) => if p > Real::whole(0) {
            ln_of(f, close / p)
        } else {
            Real::whole(0)
        },
        None => Real::whole(0),
    }
}

/// The bar that a candle makes after the previous close.
pub open spec fn bar_of(f: Oracle, c: Candle, prev_close: Option<Real>) -> Bar {
    Bar {
        open_time: c.open_time,
        open: or_zero(c.open),
        high: or_zero(c.high),
        low: or_zero(c.low),
        close: or_zero(c.close),
        volume: or_zero(c.volume),
        num_trades: c.num_trades,
        log_return: log_return_of(f, or_zero(c.close), prev_close),
    }
}

impl Bar {
    /// The bar that a candle makes after the previous close.
    pub fn from_candle<M: Fn(Elementary) -> Real>(
        c: &Candle,
        prev_close: Option<Real>,
        math: &M,
    ) -> (r: Bar)
        requires
            is_function(*math),
        ensures
            r == bar_of(oracle(*math), *c, prev_close),
    {
        let close = or_zero(c.close);
        let log_return = match prev_close {
            Some(p) => if p > Real::whole(0) {
                ln(math, close / p)
            } else {
                Real::whole(0)
            },
            None => Real::whole(0),
        };
        Bar {
            open_time: c.open_time,
            open: or_zero(c.open),
            high: or_zero(c.high),
            low: or_zero(c.low),
            close,
            volume: or_zero(c.volume),
            num_trades: c.num_trades,
            log_return,
        }
    }
}

/// Order book state of one asset.
#[derive(Debug)]
pub struct OrderBookState {
    pub bids: Vec<BookLevel>,
    pub asks: Vec<BookLevel>,
    pub last_update_ms: u64,
}

/// The price of the first level.
pub open spec fn top_price(levels: Seq<BookLevel>) -> Option<Real> {
    if levels.len() == 0 {
        None
    } else {
        levels[0].px
    }
}

/// The sizes of the first levels, zero where one is missing.
pub open spec fn top_sizes(levels: Seq<BookLevel>, n: usize) -> Seq<Real> {
    Seq::new(
        if n <= levels.len() {
            n as nat
        } else {
            levels.len()
        },
        |i: int| or_zero(levels[i].sz),
    )
}

/// What is left of the notional `remaining`, and the quantity that was traded, once
/// an order has taken the levels one after the other.
pub open spec fn walk_book(levels: Seq<BookLevel>, remaining: Real, quantity: Real) -> (Real, Real)
    decreases levels.len(),
{
    if levels.len() == 0 {
        (remaining, quantity)
    } else {
        let (px, sz) = (or_zero(levels[0].px), or_zero(levels[0].sz));
        if remaining <= px * sz {
            (Real::whole(0), quantity + remaining / px)
        } else {
            walk_book(levels.drop_first(), remaining - px * sz, quantity + sz)
        }
    }
}

/// The values of the first levels in quote units: price times size.
pub open spec fn top_values(levels: Seq<BookLevel>, n: usize) -> Seq<Real> {
    Seq::new(
        if n <= levels.len() {
            n as nat
        } else {
            levels.len()
        },
        |i: int| or_zero(levels[i].px) * or_zero(levels[i].sz),
    )
}

fn depth_value(levels: &Vec<BookLevel>, n: usize) -> (r: Real)
    ensures
        r == sum_of_seq(top_values(levels@, n)),
{
    let mut values: Vec<Real> = Vec::new();
    let mut i: usize = 0;
    while i < n && i < levels.len()
        invariant
            i <= n,
            i <= levels@.len(),
            values@ =~= top_values(levels@, n).take(i as int),
        decreases levels@.len() - i,
    {
        values.push(or_zero(levels[i].px) * or_zero(levels[i].sz));
        i += 1;
    }
    assert(values@ =~= top_values(levels@, n));
    sum(values.as_slice())
}

fn depth(levels: &Vec<BookLevel>, n: usize) -> (r: Real)
    ensures
        r == sum_of_seq(top_sizes(levels@, n)),
{
    let mut sizes: Vec<Real> = Vec::new();
    let mut i: usize = 0;
    while i < n && i < levels.len()
        invariant
            i <= n,
            i <= levels@.len(),
            sizes@ =~= top_sizes(levels@, n).take(i as int),
        decreases levels@.len() - i,
    {
        sizes.push(or_zero(levels[i].sz));
        i += 1;
    }
    assert(sizes@ =~= top_sizes(levels@, n));
    sum(sizes.as_slice())
}

impl OrderBookState {
    /// A book without levels.
    pub fn new() -> (r: OrderBookState)
        ensures
            r.bids@.len() == 0,
            r.asks@.len() == 0,
            r.last_update_ms == 0,
    {
        OrderBookState { bids: Vec::new(), asks: Vec::new(), last_update_ms: 0 }
    }

    pub fn best_bid(&self) -> (r: Option<BookLevel>)
        ensures
            r == if self.bids@.len() == 0 {
                None
            } else {
                Some(self.bids@[0])
            },
    {
        if self.bids.len() == 0 {
            None
        } else {
            Some(self.bids[0])
        }
    }

    pub fn best_ask(&self) -> (r: Option<BookLevel>)
        ensures
            r == if self.asks@.len() == 0 {
                None
            } else {
                Some(self.asks@[0])
            },
    {
        if self.asks.len() == 0 {
            None
        } else {
            Some(self.asks[0])
        }
    }

    /// Halfway between the best prices.
    pub open spec fn mid(&self) -> Option<Real> {
        match (top_price(self.bids@), top_price(self.asks@)) {
            (Some(bid), Some(ask)) => Some((bid + ask) / Real::whole(2)),
            _ => None,
        }
    }

    /// Halfway between the best prices.
    pub fn mid_price(&self) -> (r: Option<Real>)
        ensures
            r == self.mid(),
    {
        let bid = self.best_bid()?.px?;
        let ask = self.best_ask()?.px?;
        Some((bid + ask) / Real::whole(2))
    }

    /// The distance between the best prices, in hundredths of a percent of the
    /// mid price.
    pub open spec fn spread(&self) -> Option<Real> {
        match (top_price(self.bids@), top_price(self.asks@)) {
            (Some(bid), Some(ask)) => Some(
                (ask - bid) / ((bid + ask) / Real::whole(2)) * Real::whole(10_000),
            ),
            _ => None,
        }
    }

    /// The distance between the best prices, in hundredths of a percent of the
    /// mid price.
    pub fn spread_bps(&self) -> (r: Option<Real>)
        ensures
            r == self.spread(),
    {
        let bid = self.best_bid()?.px?;
        let ask = self.best_ask()?.px?;
        let mid = (bid + ask) / Real::whole(2);
        Some((ask - bid) / mid * Real::whole(10_000))
    }

    /// The total bid size of the first levels.
    pub fn bid_depth(&self, levels: usize) -> (r: Real)
        ensures
            r == sum_of_seq(top_sizes(self.bids@, levels)),
    {
        depth(&self.bids, levels)
    }

    /// The total ask size of the first levels.
    pub fn ask_depth(&self, levels: usize) -> (r: Real)
        ensures
            r == sum_of_seq(top_sizes(self.asks@, levels)),
    {
        depth(&self.asks, levels)
    }

    /// The total value of the first bid levels, in quote units.
    pub fn bid_value(&self, levels: usize) -> (r: Real)
        ensures
            r == sum_of_seq(top_values(self.bids@, levels)),
    {
        depth_value(&self.bids, levels)
    }

    /// The total value of the first ask levels, in quote units.
    pub fn ask_value(&self, levels: usize) -> (r: Real)
        ensures
            r == sum_of_seq(top_values(self.asks@, levels)),
    {
        depth_value(&self.asks, levels)
    }

    /// The estimated impact of trading `notional`: the distance of the average fill
    /// price from the mid price, as a fraction of the mid price.
    pub open spec fn impact(&self, notional: Real, is_buy: bool) -> Real {
        let mid = or_zero(self.mid());
        let levels = if is_buy {
            self.asks@
        } else {
            self.bids@
        };
        let (remaining, quantity) = walk_book(levels, notional, Real::whole(0));
        if mid.same_as(Real::whole(0)) {
            Real::whole(0)
        } else if remaining > Real::whole(0) {
            Real::whole(1)
        } else {
            (notional / quantity - mid) / mid
        }
    }

    /// The estimated impact of trading `notional`: the distance of the average fill
    /// price from the mid price, as a fraction of the mid price; zero without a mid
    /// price, one where the book is depleted.
    pub fn price_impact(&self, notional: Real, is_buy: bool) -> (r: Real)
        ensures
            r == self.impact(notional, is_buy),
    {
        let mid = or_zero(self.mid_price());
        if mid == Real::whole(0) {
            return Real::whole(0);
        }
        let levels = if is_buy {
            &self.asks
        } else {
            &self.bids
        };
        let mut remaining = notional;
        let mut quantity = Real::whole(0);
        let mut i: usize = 0;
        let mut done = false;
        assert(levels@.skip(0) =~= levels@);
        while i < levels.len() && !done
            invariant
                i <= levels@.len(),
                walk_book(levels@, notional, Real::whole(0)) == if done {
                    (remaining, quantity)
                } else {
                    walk_book(levels@.skip(i as int), remaining, quantity)
                },
            decreases levels@.len() - i,
        {
            let px = or_zero(levels[i].px);
            let sz = or_zero(levels[i].sz);
            let level_notional = px * sz;
            assert(levels@.skip(i as int).drop_first() =~= levels@.skip(i + 1));
            if remaining <= level_notional {
                quantity = quantity + remaining / px;
                remaining = Real::whole(0);
                done = true;
            } else {
                quantity = quantity + sz;
                remaining = remaining - level_notional;
            }
            i += 1;
        }
        if remaining > Real::whole(0) {
            return Real::whole(1);
        }
        (notional / quantity - mid) / mid
    }
}

/// The times and sizes of the buys and sells that a history holds.
pub struct TradeTimes {
    pub buys: Seq<u64>,
    pub sells: Seq<u64>,
    pub buy_sizes: Seq<Real>,
    pub sell_sizes: Seq<Real>,
    pub window: u64,
}

/// A sequence without its first element, if it has one.
pub open spec fn without_first(s: Seq<Real>) -> Seq<Real> {
    if s.len() == 0 {
        s
    } else {
        s.drop_first()
    }
}

/// The sizes of what is left of `times` without the leading ones before `cutoff`.
pub open spec fn sizes_since(times: Seq<u64>, sizes: Seq<Real>, cutoff: u64) -> Seq<Real>
    decreases times.len(),
{
    if times.len() > 0 && times[0] < cutoff {
        sizes_since(times.drop_first(), without_first(sizes), cutoff)
    } else {
        sizes
    }
}

/// Times without the leading ones before `cutoff`.
pub open spec fn since(times: Seq<u64>, cutoff: u64) -> Seq<u64>
    decreases times.len(),
{
    if times.len() > 0 && times[0] < cutoff {
        since(times.drop_first(), cutoff)
    } else {
        times
    }
}

/// The start of the window that ends at `now`.
pub open spec fn window_start(now: u64, window: u64) -> u64 {
    if now >= window {
        (now - window) as u64
    } else {
        0
    }
}

impl TradeTimes {
    /// The history without what has left the window by `now`.
    pub open spec fn evicted(self, now: u64) -> TradeTimes {
        let cutoff = window_start(now, self.window);
        TradeTimes {
            buys: since(self.buys, cutoff),
            sells: since(self.sells, cutoff),
            buy_sizes: sizes_since(self.buys, self.buy_sizes, cutoff),
            sell_sizes: sizes_since(self.sells, self.sell_sizes, cutoff),
            window: self.window,
        }
    }

    /// The history after one more trade.
    pub open spec fn after(self, trade: Trade) -> TradeTimes {
        let sz = or_zero(trade.sz);
        match trade.side {
            Side::Bid => TradeTimes {
                buys: self.buys.push(trade.time),
                buy_sizes: self.buy_sizes.push(sz),
                ..self
            },
            Side::Ask => TradeTimes {
                sells: self.sells.push(trade.time),
                sell_sizes: self.sell_sizes.push(sz),
                ..self
            },
        }.evicted(trade.time)
    }
}

/// What is kept is an end of the sequence, its first time is in the window, and
/// with ascending times so are all.
pub proof fn lemma_since(times: Seq<u64>, cutoff: u64)
    ensures
        since(times, cutoff).len() <= times.len(),
        since(times, cutoff) == times.skip(times.len() - since(times, cutoff).len()),
        since(times, cutoff).len() > 0 ==> since(times, cutoff)[0] >= cutoff,
        (forall|i: int, j: int| 0 <= i < j < times.len() ==> times[i] <= times[j]) ==> forall|i: int|
            0 <= i < since(times, cutoff).len() ==> #[trigger] since(times, cutoff)[i] >= cutoff,
    decreases times.len(),
{
    if times.len() > 0 && times[0] < cutoff {
        let rest = times.drop_first();
        lemma_since(rest, cutoff);
        let n = since(times, cutoff).len();
        assert(rest.skip(rest.len() - n) =~= times.skip(times.len() - n));
        if forall|i: int, j: int| 0 <= i < j < times.len() ==> times[i] <= times[j] {
            assert forall|i: int, j: int| 0 <= i < j < rest.len() implies rest[i] <= rest[j] by {
                assert(times[i + 1] <= times[j + 1]);
            }
        }
    } else {
        assert(times.skip(0) =~= times);
        assert forall|i: int|
            (forall|i: int, j: int| 0 <= i < j < times.len() ==> times[i] <= times[j]) && 0 <= i
                < since(times, cutoff).len() implies #[trigger] since(times, cutoff)[i] >= cutoff by {
            if i > 0 {
                assert(times[0] <= times[i]);
            }
        }
    }
}

/// Rolling trade history of one asset.
#[derive(Debug)]
pub struct TradeHistory {
    pub buy_times_ms: VecDeque<u64>,
    pub sell_times_ms: VecDeque<u64>,
    /// Sizes of the buys, in the order of their times.
    pub buy_sizes: VecDeque<Real>,
    /// Sizes of the sells, in the order of their times.
    pub sell_sizes: VecDeque<Real>,
    pub max_window_ms: u64,
}

fn drop_before(times: &mut VecDeque<u64>, sizes: &mut VecDeque<Real>, cutoff: u64)
    ensures
        final(times)@ == since(old(times)@, cutoff),
        final(sizes)@ == sizes_since(old(times)@, old(sizes)@, cutoff),
{
    while times.len() > 0 && times[0] < cutoff
        invariant
            since(times@, cutoff) == since(old(times)@, cutoff),
            sizes_since(times@, sizes@, cutoff) == sizes_since(old(times)@, old(sizes)@, cutoff),
        decreases times@.len(),
    {
        let ghost before = times@;
        let ghost held = sizes@;
        let _ = times.pop_front();
        let _ = sizes.pop_front();
        assert(times@ =~= before.drop_first());
        assert(sizes@ =~= without_first(held));
    }
}

fn total_size(sizes: &VecDeque<Real>) -> (r: Real)
    ensures
        r == sum_of_seq(sizes@),
{
    let mut v: Vec<Real> = Vec::new();
    let mut i: usize = 0;
    while i < sizes.len()
        invariant
            i <= sizes@.len(),
            v@ =~= sizes@.take(i as int),
        decreases sizes@.len() - i,
    {
        v.push(sizes[i]);
        i += 1;
    }
    assert(v@ =~= sizes@);
    sum(v.as_slice())
}

impl TradeHistory {
    /// The times held.
    pub open spec fn times(&self) -> TradeTimes {
        TradeTimes {
            buys: self.buy_times_ms@,
            sells: self.sell_times_ms@,
            buy_sizes: self.buy_sizes@,
            sell_sizes: self.sell_sizes@,
            window: self.max_window_ms,
        }
    }

    /// A history without trades.
    pub fn new(window_ms: u64) -> (r: TradeHistory)
        ensures
            r.times() == no_trades(window_ms),
    {
        TradeHistory {
            buy_times_ms: VecDeque::new(),
            sell_times_ms: VecDeque::new(),
            buy_sizes: VecDeque::new(),
            sell_sizes: VecDeque::new(),
            max_window_ms: window_ms,
        }
    }

    /// Adds a trade and forgets what has left the window by then.
    pub fn push(&mut self, trade: &Trade)
        ensures
            final(self).times() == old(self).times().after(*trade),
    {
        let t: u64 = trade.time;
        let sz = or_zero(trade.sz);
        match trade.side {
            Side::Bid => {
                self.buy_times_ms.push_back(t);
                self.buy_sizes.push_back(sz);
            },
            Side::Ask => {
                self.sell_times_ms.push_back(t);
                self.sell_sizes.push_back(sz);
            },
        }
        self.evict(t);
    }

    /// Forgets what has left the window by `now`.
    pub fn evict(&mut self, now: u64)
        ensures
            final(self).times() == old(self).times().evicted(now),
    {
        let cutoff: u64 = now.saturating_sub(self.max_window_ms);
        drop_before(&mut self.buy_times_ms, &mut self.buy_sizes, cutoff);
        drop_before(&mut self.sell_times_ms, &mut self.sell_sizes, cutoff);
    }

    /// The fraction of the volume in the window that was bought; one half without
    /// volume.
    pub fn imbalance(&self) -> (r: Real)
        ensures
            r == self.buy_fraction(),
    {
        let bought = total_size(&self.buy_sizes);
        let total = bought + total_size(&self.sell_sizes);
        if total > Real::whole(0) {
            bought / total
        } else {
            Real::ratio(1, 2)
        }
    }

    /// The fraction of the volume in the window that was bought; one half without
    /// volume.
    pub open spec fn buy_fraction(&self) -> Real {
        let bought = sum_of_seq(self.buy_sizes@);
        let total = bought + sum_of_seq(self.sell_sizes@);
        if total > Real::whole(0) {
            bought / total
        } else {
            Real::ratio(1, 2)
        }
    }
}

/// Funding rate sample of one asset.
#[derive(Debug, Clone, Copy)]
pub struct FundingSample {
    pub time: u64,
    pub rate: Real,
    pub premium: Real,
}

/// Latest context of an asset.
#[derive(Debug, Clone, Copy)]
pub struct AssetContextSnapshot {
    pub funding_rate: Real,
    pub open_interest: Real,
    pub mark_px: Real,
    pub oracle_px: Real,
    pub prev_day_px: Real,
}

/// A sequence after one more element, without its first where it would exceed
/// `cap` elements.
pub open spec fn rolled<T>(s: Seq<T>, x: T, cap: nat) -> Seq<T> {
    if s.len() + 1 > cap {
        s.push(x).drop_first()
    } else {
        s.push(x)
    }
}

/// The longest funding history kept.
pub const MAX_FUNDING: usize = 200;

/// The window of a trade history in milliseconds: two hours.
pub const TRADE_WINDOW_MS: u64 = 7_200_000;

/// All live data.
#[derive(Debug)]
pub struct DataStore {
    /// Bars per asset and interval.
    pub bars: Table<Table<VecDeque<Bar>>>,
    /// Current order book per asset.
    pub books: Table<OrderBookState>,
    /// Rolling trade history per asset.
    pub trades: Table<TradeHistory>,
    /// Funding rate history per asset.
    pub funding: Table<VecDeque<FundingSample>>,
    /// Latest mid prices.
    pub mids: Table<rust_decimal::Decimal>,
    /// Latest context per asset.
    pub asset_ctx: Table<AssetContextSnapshot>,
    /// The most bars kept per asset and interval.
    pub max_bars: usize,
}

/// The elements of an optional sequence; none where there is no sequence.
pub open spec fn or_empty<T>(s: Option<Seq<T>>) -> Seq<T> {
    match s {
        Some(t) => t,
        None => Seq::empty(),
    }
}

impl DataStore {
    /// The bars of an asset and interval, where there are any.
    pub open spec fn bars_at(&self, asset: Seq<char>, interval: Seq<char>) -> Option<Seq<Bar>> {
        if self.bars@.contains_key(asset) && self.bars@[asset]@.contains_key(interval) {
            Some(self.bars@[asset]@[interval]@)
        } else {
            None
        }
    }

    /// The trades of an asset, where there are any.
    pub open spec fn trades_at(&self, asset: Seq<char>) -> Option<TradeTimes> {
        if self.trades@.contains_key(asset) {
            Some(self.trades@[asset].times())
        } else {
            None
        }
    }

    /// The funding samples of an asset, where there are any.
    pub open spec fn funding_at(&self, asset: Seq<char>) -> Option<Seq<FundingSample>> {
        if self.funding@.contains_key(asset) {
            Some(self.funding@[asset]@)
        } else {
            None
        }
    }

    /// No history is longer than it may be.
    pub open spec fn bounded(&self) -> bool {
        &&& forall|a: Seq<char>, i: Seq<char>|
            or_empty(#[trigger] self.bars_at(a, i)).len() <= self.max_bars
        &&& forall|a: Seq<char>| or_empty(#[trigger] self.funding_at(a)).len() <= MAX_FUNDING
    }

    /// An empty store.
    pub fn new(max_bars: usize) -> (r: DataStore)
        ensures
            r.max_bars == max_bars,
            forall|a: Seq<char>, i: Seq<char>| #[trigger] r.bars_at(a, i) is None,
            r.books@.dom() == Set::<Seq<char>>::empty(),
            forall|a: Seq<char>| #[trigger] r.trades_at(a) is None,
            forall|a: Seq<char>| #[trigger] r.funding_at(a) is None,
            r.mids@.dom() == Set::<Seq<char>>::empty(),
            r.asset_ctx@.dom() == Set::<Seq<char>>::empty(),
            r.bounded(),
    {
        DataStore {
            bars: Table::new(),
            books: Table::new(),
            trades: Table::new(),
            funding: Table::new(),
            mids: Table::new(),
            asset_ctx: Table::new(),
            max_bars,
        }
    }

    /// Adds a bar and forgets the oldest where there are too many.
    pub fn push_bar(&mut self, asset: &str, interval: &str, bar: Bar)
        ensures
            final(self).bars_at(asset@, interval@) == Some(
                rolled(or_empty(old(self).bars_at(asset@, interval@)), bar, old(self).max_bars as nat),
            ),
            forall|a: Seq<char>, i: Seq<char>|
                a != asset@ || i != interval@ ==> #[trigger] final(self).bars_at(a, i)
                    == old(self).bars_at(a, i),
            final(self).books == old(self).books,
            final(self).trades == old(self).trades,
            final(self).funding == old(self).funding,
            final(self).mids == old(self).mids,
            final(self).asset_ctx == old(self).asset_ctx,
            final(self).max_bars == old(self).max_bars,
            old(self).bounded() ==> final(self).bounded(),
    {
        let max_bars: usize = self.max_bars;
        let per_asset = self.bars.entry(asset, Table::new());
        let deque = per_asset.entry(interval, VecDeque::new());
        let ghost before = deque@;
        deque.push_back(bar);
        if deque.len() > max_bars {
            let _ = deque.pop_front();
        }
        assert(deque@ =~= rolled(before, bar, max_bars as nat));
        assert(before =~= or_empty(old(self).bars_at(asset@, interval@)));
        proof {
            assert forall|a: Seq<char>, i: Seq<char>|
                a != asset@ || i != interval@ implies #[trigger] self.bars_at(a, i) == old(
                self,
            ).bars_at(a, i) by {}
            if old(self).bounded() {
                assert forall|a: Seq<char>, i: Seq<char>|
                    or_empty(#[trigger] self.bars_at(a, i)).len() <= self.max_bars by {
                    assert(or_empty(old(self).bars_at(a, i)).len() <= max_bars);
                }
                assert forall|a: Seq<char>|
                    or_empty(#[trigger] self.funding_at(a)).len() <= MAX_FUNDING by {
                    assert(self.funding_at(a) == old(self).funding_at(a));
                }
            }
        }
    }

    /// Adds a trade to the asset's history.
    pub fn push_trade(&mut self, asset: &str, trade: &Trade)
        ensures
            final(self).trades_at(asset@) == Some(
                trades_or_new(old(self).trades_at(asset@)).after(*trade),
            ),
            forall|a: Seq<char>|
                a != asset@ ==> #[trigger] final(self).trades_at(a) == old(self).trades_at(a),
            final(self).bars == old(self).bars,
            final(self).books == old(self).books,
            final(self).funding == old(self).funding,
            final(self).mids == old(self).mids,
            final(self).asset_ctx == old(self).asset_ctx,
            final(self).max_bars == old(self).max_bars,
    {
        self.trades.entry(asset, TradeHistory::new(TRADE_WINDOW_MS)).push(trade);
    }

    /// Takes over an order book.
    pub fn update_book(&mut self, asset: &str, book: &L2Book)
        ensures
            final(self).books@.dom() == old(self).books@.dom().insert(asset@),
            final(self).books@[asset@].bids@ == book.levels[1]@,
            final(self).books@[asset@].asks@ == book.levels[0]@,
            final(self).books@[asset@].last_update_ms == book.time,
            forall|a: Seq<char>|
                a != asset@ ==> #[trigger] final(self).books@[a] == old(self).books@[a],
            final(self).bars == old(self).bars,
            final(self).trades == old(self).trades,
            final(self).funding == old(self).funding,
            final(self).mids == old(self).mids,
            final(self).asset_ctx == old(self).asset_ctx,
            final(self).max_bars == old(self).max_bars,
    {
        let state = OrderBookState {
            bids: copy_levels(&book.levels[1]),
            asks: copy_levels(&book.levels[0]),
            last_update_ms: book.time,
        };
        self.books.insert(asset, state);
    }

    /// Adds a funding sample and forgets the oldest where there are too many.
    pub fn push_funding(&mut self, asset: &str, sample: FundingSample)
        ensures
            final(self).funding_at(asset@) == Some(
                rolled(or_empty(old(self).funding_at(asset@)), sample, MAX_FUNDING as nat),
            ),
            forall|a: Seq<char>|
                a != asset@ ==> #[trigger] final(self).funding_at(a) == old(self).funding_at(a),
            final(self).bars == old(self).bars,
            final(self).books == old(self).books,
            final(self).trades == old(self).trades,
            final(self).mids == old(self).mids,
            final(self).asset_ctx == old(self).asset_ctx,
            final(self).max_bars == old(self).max_bars,
            old(self).bounded() ==> final(self).bounded(),
    {
        let deque = self.funding.entry(asset, VecDeque::new());
        let ghost before = deque@;
        deque.push_back(sample);
        if deque.len() > MAX_FUNDING {
            let _ = deque.pop_front();
        }
        assert(deque@ =~= rolled(before, sample, MAX_FUNDING as nat));
        assert(before =~= or_empty(old(self).funding_at(asset@)));
        proof {
            if old(self).bounded() {
                assert forall|a: Seq<char>, i: Seq<char>|
                    or_empty(#[trigger] self.bars_at(a, i)).len() <= self.max_bars by {
                    assert(self.bars_at(a, i) == old(self).bars_at(a, i));
                }
                assert forall|a: Seq<char>|
                    or_empty(#[trigger] self.funding_at(a)).len() <= MAX_FUNDING by {
                    assert(or_empty(old(self).funding_at(a)).len() <= MAX_FUNDING);
                }
            }
        }
    }

    /// The bars of an asset and interval, where there are any.
    pub fn bars_for(&self, asset: &str, interval: &str) -> (r: Option<&VecDeque<Bar>>)
        ensures
            r is Some == self.bars_at(asset@, interval@) is Some,
            r matches Some(d) ==> self.bars_at(asset@, interval@) == Some(d@),
    {
        match self.bars.get(asset) {
            Some(t) => t.get(interval),
            None => None,
        }
    }

    /// The closes of an asset and interval.
    pub fn closes(&self, asset: &str, interval: &str) -> (r: Vec<Real>)
        ensures
            r@ == or_empty(self.bars_at(asset@, interval@)).map_values(|b: Bar| b.close),
    {
        let mut out: Vec<Real> = Vec::new();
        let ghost bars = or_empty(self.bars_at(asset@, interval@));
        if let Some(d) = self.bars_for(asset, interval) {
            let mut i: usize = 0;
            while i < d.len()
                invariant
                    i <= d@.len(),
                    d@ == bars,
                    out@ =~= bars.map_values(|b: Bar| b.close).take(i as int),
                decreases d@.len() - i,
            {
                out.push(d[i].close);
                i += 1;
            }
        }
        assert(out@ =~= bars.map_values(|b: Bar| b.close));
        out
    }

    /// The log returns of an asset and interval.
    pub fn log_returns(&self, asset: &str, interval: &str) -> (r: Vec<Real>)
        ensures
            r@ == or_empty(self.bars_at(asset@, interval@)).map_values(|b: Bar| b.log_return),
    {
        let mut out: Vec<Real> = Vec::new();
        let ghost bars = or_empty(self.bars_at(asset@, interval@));
        if let Some(d) = self.bars_for(asset, interval) {
            let mut i: usize = 0;
            while i < d.len()
                invariant
                    i <= d@.len(),
                    d@ == bars,
                    out@ =~= bars.map_values(|b: Bar| b.log_return).take(i as int),
                decreases d@.len() - i,
            {
                out.push(d[i].log_return);
                i += 1;
            }
        }
        assert(out@ =~= bars.map_values(|b: Bar| b.log_return));
        out
    }
}

/// The trades held, or a new history of two hours.
pub open spec fn trades_or_new(t: Option<TradeTimes>) -> TradeTimes {
    match t {
        Some(x) => x,
        None => no_trades(TRADE_WINDOW_MS),
    }
}

/// A history without trades.
pub open spec fn no_trades(window: u64) -> TradeTimes {
    TradeTimes {
        buys: Seq::empty(),
        sells: Seq::empty(),
        buy_sizes: Seq::empty(),
        sell_sizes: Seq::empty(),
        window,
    }
}

fn copy_levels(levels: &Vec<BookLevel>) -> (r: Vec<BookLevel>)
    ensures
        r@ == levels@,
{
    let mut out: Vec<BookLevel> = Vec::new();
    let mut i: usize = 0;
    while i < levels.len()
        invariant
            i <= levels@.len(),
            out@ =~= levels@.take(i as int),
        decreases levels@.len() - i,
    {
        out.push(levels[i]);
        i += 1;
    }
    assert(out@ =~= levels@);
    out
}

} // verus!
