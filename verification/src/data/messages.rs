//! What the exchange's messages do to the data.
use vstd::prelude::*;

use crate::assets::{listed, Asset};
use crate::data::ingestion::{
    bars_loaded, funding_loaded, handled, trades_after, FundingRate, Incoming,
};
use crate::data::store::{
    bar_of, or_empty, or_zero, Bar, Candle, DataStore, FundingSample, Trade, TradeTimes,
    MAX_FUNDING,
};
use crate::num::elementary::Oracle;

verus! {

/// A message never changes the data of an asset that is not traded.
pub proof fn untraded_asset_is_left_alone(
    f: Oracle,
    before: DataStore,
    after: DataStore,
    msg: Incoming,
    assets: Seq<Asset>,
    a: Seq<char>,
    interval: Seq<char>,
)
    requires
        handled(f, before, after, msg, assets),
        !listed(assets, a),
    ensures
        after.trades_at(a) == before.trades_at(a),
        after.bars_at(a, interval) == before.bars_at(a, interval),
        after.funding_at(a) == before.funding_at(a),
        after.books@.contains_key(a) == before.books@.contains_key(a),
        before.books@.contains_key(a) ==> after.books@[a] == before.books@[a],
        before.asset_ctx@.contains_key(a) == after.asset_ctx@.contains_key(a),
        before.asset_ctx@.contains_key(a) ==> after.asset_ctx@[a] == before.asset_ctx@[a],
{
}

/// A candle of a traded asset becomes its latest bar, with the return from the close of the
/// bar before it; nothing but the bars of its asset and interval changes.
pub proof fn candle_becomes_the_latest_bar(
    f: Oracle,
    before: DataStore,
    after: DataStore,
    c: Candle,
    assets: Seq<Asset>,
    a: Seq<char>,
)
    requires
        handled(f, before, after, Incoming::Candle(c), assets),
        listed(assets, c.coin@),
        before.max_bars > 0,
        or_empty(before.bars_at(c.coin@, c.interval@)).len() <= before.max_bars,
    ensures
        ({
            let old_bars = or_empty(before.bars_at(c.coin@, c.interval@));
            let new_bars = or_empty(after.bars_at(c.coin@, c.interval@));
            &&& new_bars.len() > 0
            &&& new_bars.len() <= before.max_bars
            &&& new_bars.last().open_time == c.open_time
            &&& new_bars.last().close == or_zero(c.close)
            &&& new_bars.last() == bar_of(
                f,
                c,
                if old_bars.len() == 0 {
                    None
                } else {
                    Some(old_bars.last().close)
                },
            )
            &&& after.trades_at(a) == before.trades_at(a)
            &&& after.funding_at(a) == before.funding_at(a)
            &&& after.books == before.books
        }),
{
}

/// A book of a traded asset replaces the one held: its second side holds the bids and its
/// first the asks.
pub proof fn book_replaces_the_one_held(
    f: Oracle,
    before: DataStore,
    after: DataStore,
    book: crate::data::store::L2Book,
    assets: Seq<Asset>,
    a: Seq<char>,
)
    requires
        handled(f, before, after, Incoming::L2Book(book), assets),
        listed(assets, book.coin@),
    ensures
        after.books@.contains_key(book.coin@),
        after.books@[book.coin@].bids@ == book.levels[1]@,
        after.books@[book.coin@].asks@ == book.levels[0]@,
        after.books@[book.coin@].last_update_ms == book.time,
        after.trades_at(a) == before.trades_at(a),
{
}

/// Trades of other assets do not count, and the last trade of the asset is the last one
/// added.
pub proof fn only_trades_of_the_asset_count(
    t: Option<TradeTimes>,
    asset: Seq<char>,
    trades: Seq<Trade>,
    n: nat,
)
    requires
        n <= trades.len(),
    ensures
        (forall|i: int| 0 <= i < n ==> (#[trigger] trades[i]).coin@ != asset) ==> trades_after(
            t,
            asset,
            trades,
            n,
        ) == t,
        n > 0 && trades[n - 1].coin@ == asset ==> trades_after(t, asset, trades, n) is Some,
        n > 0 && trades[n - 1].coin@ != asset ==> trades_after(t, asset, trades, n)
            == trades_after(t, asset, trades, (n - 1) as nat),
    decreases n,
{
    if n > 0 {
        only_trades_of_the_asset_count(t, asset, trades, (n - 1) as nat);
    }
}

/// The latest funding sample of a history is that of its last rate.
pub proof fn last_rate_is_the_latest_sample(
    samples: Option<Seq<FundingSample>>,
    rates: Seq<FundingRate>,
    n: nat,
)
    requires
        0 < n <= rates.len(),
        or_empty(samples).len() <= MAX_FUNDING,
    ensures
        ({
            let s = or_empty(funding_loaded(samples, rates, n));
            &&& 0 < s.len() <= MAX_FUNDING
            &&& s.last().time == rates[n - 1].time
            &&& s.last().rate == or_zero(rates[n - 1].funding_rate)
            &&& s.last().premium == or_zero(rates[n - 1].premium)
        }),
    decreases n,
{
    reveal_with_fuel(funding_loaded, 2);
    if n > 1 {
        last_rate_is_the_latest_sample(samples, rates, (n - 1) as nat);
    }
}

/// The latest bar of a history is that of its last candle, with the return from the candle
/// before it; the first candle has no return.
pub proof fn last_candle_is_the_latest_bar(
    f: Oracle,
    bars: Option<Seq<Bar>>,
    candles: Seq<Candle>,
    n: nat,
    cap: nat,
)
    requires
        0 < n <= candles.len(),
        0 < cap,
        or_empty(bars).len() <= cap,
    ensures
        ({
            let s = or_empty(bars_loaded(f, bars, candles, n, cap));
            &&& 0 < s.len() <= cap
            &&& s.last() == bar_of(
                f,
                candles[n - 1],
                if n == 1 {
                    None
                } else {
                    Some(or_zero(candles[n - 2].close))
                },
            )
        }),
    decreases n,
{
    reveal_with_fuel(bars_loaded, 2);
    if n > 1 {
        last_candle_is_the_latest_bar(f, bars, candles, (n - 1) as nat, cap);
    }
}

} // verus!
