//! From exchange messages to the data store.
use vstd::prelude::*;

use crate::assets::{is_listed, listed, Asset};
use crate::data::store::{
    bar_of, or_empty, or_zero, rolled, trades_or_new, AssetContextSnapshot, Bar, Candle, DataStore,
    FundingSample, L2Book, Trade, TradeTimes, MAX_FUNDING,
};
use crate::data::table::Table;
use crate::num::elementary::{is_function, oracle, Elementary, Oracle};
use crate::num::Real;

verus! {

/// Milliseconds in a day.
pub const DAY_MS: u64 = 86_400_000;

/// Context of an asset as the exchange sends it; a number is missing where it is
/// not sent or does not convert.
#[derive(Debug, Clone, Copy)]
pub struct AssetContext {
    pub funding: Option<Real>,
    pub open_interest: Option<Real>,
    pub mark_px: Option<Real>,
    pub oracle_px: Option<Real>,
    pub prev_day_px: Option<Real>,
}

/// A message of the exchange.
#[derive(Debug)]
pub enum Incoming {
    Trades(Vec<Trade>),
    L2Book(L2Book),
    Candle(Candle),
    AllMids { mids: Table<rust_decimal::Decimal> },
    ActiveAssetCtx { coin: String, ctx: AssetContext },
    Other,
}

/// A feed to subscribe to.
#[derive(Debug)]
pub enum Subscription {
    Trades { coin: String },
    L2Book { coin: String },
    Candle { coin: String, interval: String },
    ActiveAssetCtx { coin: String },
    AllMids,
}

/// The labels of the candle intervals that are loaded at the start.
pub fn intervals() -> (r: Vec<&'static str>)
    ensures
        r@.len() == 4,
        r@[0]@ == "1m"@,
        r@[1]@ == "5m"@,
        r@[2]@ == "1h"@,
        r@[3]@ == "1d"@,
{
    vec!["1m", "5m", "1h", "1d"]
}

/// The start of a history of `days` days that ends at `end_ms`.
pub fn history_start(end_ms: u64, days: u64) -> (r: u64)
    requires
        days * DAY_MS <= end_ms,
    ensures
        r == end_ms - days * DAY_MS,
{
    end_ms - days * DAY_MS
}

/// The feeds of one asset, in the order of subscription.
pub open spec fn feeds_of(s: Seq<Subscription>, at: int, coin: Seq<char>) -> bool {
    &&& s[at] matches Subscription::Trades { coin: c } && c@ == coin
    &&& s[at + 1] matches Subscription::L2Book { coin: c } && c@ == coin
    &&& s[at + 2] matches Subscription::Candle { coin: c, interval: i } && c@ == coin && i@
        == "1m"@
    &&& s[at + 3] matches Subscription::Candle { coin: c, interval: i } && c@ == coin && i@
        == "5m"@
    &&& s[at + 4] matches Subscription::ActiveAssetCtx { coin: c } && c@ == coin
}

/// The feeds of all assets, and the mid prices.
pub fn subscriptions(assets: &[Asset]) -> (r: Vec<Subscription>)
    ensures
        r@.len() == 5 * assets@.len() + 1,
        forall|k: int|
            0 <= k < assets@.len() ==> feeds_of(r@, 5 * k, (#[trigger] assets@[k]).symbol@),
        r@.last() is AllMids,
{
    let mut out: Vec<Subscription> = Vec::new();
    let mut i: usize = 0;
    while i < assets.len()
        invariant
            i <= assets@.len(),
            out@.len() == 5 * i,
            forall|k: int|
                0 <= k < i ==> feeds_of(out@, 5 * k, (#[trigger] assets@[k]).symbol@),
        decreases assets@.len() - i,
    {
        let ghost before = out@;
        out.push(Subscription::Trades { coin: assets[i].symbol.clone() });
        out.push(Subscription::L2Book { coin: assets[i].symbol.clone() });
        out.push(
            Subscription::Candle { coin: assets[i].symbol.clone(), interval: "1m".to_owned() },
        );
        out.push(
            Subscription::Candle { coin: assets[i].symbol.clone(), interval: "5m".to_owned() },
        );
        out.push(Subscription::ActiveAssetCtx { coin: assets[i].symbol.clone() });
        assert forall|k: int| 0 <= k < i + 1 implies feeds_of(
            out@,
            5 * k,
            (#[trigger] assets@[k]).symbol@,
        ) by {
            if k < i {
                assert(feeds_of(before, 5 * k, assets@[k].symbol@));
                assert(forall|j: int| 0 <= j < before.len() ==> out@[j] == before[j]);
            }
        }
        i += 1;
    }
    let ghost before = out@;
    out.push(Subscription::AllMids);
    assert forall|k: int| 0 <= k < assets@.len() implies feeds_of(
        out@,
        5 * k,
        (#[trigger] assets@[k]).symbol@,
    ) by {
        assert(feeds_of(before, 5 * k, assets@[k].symbol@));
        assert(forall|j: int| 0 <= j < before.len() ==> out@[j] == before[j]);
    }
    out
}

/// A part of the data store.
pub enum Part {
    Bars,
    Books,
    Trades,
    Funding,
    Mids,
    AssetCtx,
}

/// Two stores agree in all but one part.
pub open spec fn agree_but(a: DataStore, b: DataStore, part: Part) -> bool {
    &&& part is Bars || a.bars == b.bars
    &&& part is Books || a.books == b.books
    &&& part is Trades || a.trades == b.trades
    &&& part is Funding || a.funding == b.funding
    &&& part is Mids || a.mids == b.mids
    &&& part is AssetCtx || a.asset_ctx == b.asset_ctx
    &&& a.max_bars == b.max_bars
}

/// The bars after the first `n` candles of a history have been added; each log
/// return is taken from the candle before.
pub open spec fn bars_loaded(
    f: Oracle,
    bars: Option<Seq<Bar>>,
    candles: Seq<Candle>,
    n: nat,
    cap: nat,
) -> Option<Seq<Bar>>
    decreases n,
{
    if n == 0 {
        bars
    } else {
        let prev_close = if n == 1 {
            None
        } else {
            Some(or_zero(candles[n - 2].close))
        };
        Some(
            rolled(
                or_empty(bars_loaded(f, bars, candles, (n - 1) as nat, cap)),
                bar_of(f, candles[n - 1], prev_close),
                cap,
            ),
        )
    }
}

/// Adds a history of candles to the bars of an asset.
pub fn load_candles<M: Fn(Elementary) -> Real>(
    store: &mut DataStore,
    asset: &str,
    interval: &str,
    candles: &[Candle],
    math: &M,
)
    requires
        is_function(*math),
    ensures
        final(store).bars_at(asset@, interval@) == bars_loaded(
            oracle(*math),
            old(store).bars_at(asset@, interval@),
            candles@,
            candles@.len(),
            old(store).max_bars as nat,
        ),
        forall|a: Seq<char>, i: Seq<char>|
            a != asset@ || i != interval@ ==> #[trigger] final(store).bars_at(a, i) == old(
                store,
            ).bars_at(a, i),
        agree_but(*old(store), *final(store), Part::Bars),
        old(store).bounded() ==> final(store).bounded(),
{
    let mut prev_close: Option<Real> = None;
    let mut n: usize = 0;
    while n < candles.len()
        invariant
            is_function(*math),
            n <= candles@.len(),
            prev_close == if n == 0 {
                None
            } else {
                Some(or_zero(candles@[n - 1].close))
            },
            store.bars_at(asset@, interval@) == bars_loaded(
                oracle(*math),
                old(store).bars_at(asset@, interval@),
                candles@,
                n as nat,
                old(store).max_bars as nat,
            ),
            forall|a: Seq<char>, i: Seq<char>|
                a != asset@ || i != interval@ ==> #[trigger] store.bars_at(a, i) == old(
                    store,
                ).bars_at(a, i),
            agree_but(*old(store), *store, Part::Bars),
            old(store).bounded() ==> store.bounded(),
        decreases candles@.len() - n,
    {
        let bar = Bar::from_candle(&candles[n], prev_close, math);
        prev_close = Some(bar.close);
        let ghost before = *store;
        store.push_bar(asset, interval, bar);
        assert forall|a: Seq<char>, i: Seq<char>|
            a != asset@ || i != interval@ implies #[trigger] store.bars_at(a, i) == old(
            store,
        ).bars_at(a, i) by {
            assert(store.bars_at(a, i) == before.bars_at(a, i));
        }
        n += 1;
    }
}

/// A funding rate as the exchange sends it; a number is missing where it does
/// not convert.
#[derive(Debug, Clone, Copy)]
pub struct FundingRate {
    pub time: u64,
    pub funding_rate: Option<Real>,
    pub premium: Option<Real>,
}

/// The sample that a funding rate makes.
pub open spec fn sample_of(r: FundingRate) -> FundingSample {
    FundingSample { time: r.time, rate: or_zero(r.funding_rate), premium: or_zero(r.premium) }
}

/// The funding samples after the first `n` rates of a history have been added.
pub open spec fn funding_loaded(
    samples: Option<Seq<FundingSample>>,
    rates: Seq<FundingRate>,
    n: nat,
) -> Option<Seq<FundingSample>>
    decreases n,
{
    if n == 0 {
        samples
    } else {
        Some(
            rolled(
                or_empty(funding_loaded(samples, rates, (n - 1) as nat)),
                sample_of(rates[n - 1]),
                MAX_FUNDING as nat,
            ),
        )
    }
}

/// Adds a history of funding rates to the samples of an asset.
pub fn load_funding(store: &mut DataStore, asset: &str, rates: &[FundingRate])
    ensures
        final(store).funding_at(asset@) == funding_loaded(
            old(store).funding_at(asset@),
            rates@,
            rates@.len(),
        ),
        forall|a: Seq<char>|
            a != asset@ ==> #[trigger] final(store).funding_at(a) == old(store).funding_at(a),
        agree_but(*old(store), *final(store), Part::Funding),
        old(store).bounded() ==> final(store).bounded(),
{
    let mut n: usize = 0;
    while n < rates.len()
        invariant
            n <= rates@.len(),
            store.funding_at(asset@) == funding_loaded(
                old(store).funding_at(asset@),
                rates@,
                n as nat,
            ),
            forall|a: Seq<char>|
                a != asset@ ==> #[trigger] store.funding_at(a) == old(store).funding_at(a),
            agree_but(*old(store), *store, Part::Funding),
            old(store).bounded() ==> store.bounded(),
        decreases rates@.len() - n,
    {
        let r = rates[n];
        let ghost before = *store;
        store.push_funding(
            asset,
            FundingSample {
                time: r.time,
                rate: or_zero(r.funding_rate),
                premium: or_zero(r.premium),
            },
        );
        assert forall|a: Seq<char>| a != asset@ implies #[trigger] store.funding_at(a) == old(
            store,
        ).funding_at(a) by {
            assert(store.funding_at(a) == before.funding_at(a));
        }
        n += 1;
    }
}

/// The trades of an asset after the first `n` trades of a message.
pub open spec fn trades_after(
    t: Option<TradeTimes>,
    asset: Seq<char>,
    trades: Seq<Trade>,
    n: nat,
) -> Option<TradeTimes>
    decreases n,
{
    if n == 0 {
        t
    } else {
        let before = trades_after(t, asset, trades, (n - 1) as nat);
        if trades[n - 1].coin@ == asset {
            Some(trades_or_new(before).after(trades[n - 1]))
        } else {
            before
        }
    }
}

/// The close of the last bar, where there is one.
pub open spec fn last_close(bars: Option<Seq<Bar>>) -> Option<Real> {
    match bars {
        Some(s) => if s.len() == 0 {
            None
        } else {
            Some(s.last().close)
        },
        None => None,
    }
}

/// The snapshot that a context makes.
pub open spec fn snapshot_of(ctx: AssetContext) -> AssetContextSnapshot {
    AssetContextSnapshot {
        funding_rate: or_zero(ctx.funding),
        open_interest: or_zero(ctx.open_interest),
        mark_px: or_zero(ctx.mark_px),
        oracle_px: or_zero(ctx.oracle_px),
        prev_day_px: or_zero(ctx.prev_day_px),
    }
}

/// `after` is what a message makes of `before`. Messages on assets that are not
/// traded change nothing.
pub open spec fn handled(
    f: Oracle,
    before: DataStore,
    after: DataStore,
    msg: Incoming,
    assets: Seq<Asset>,
) -> bool {
    match msg {
        Incoming::Trades(trades) => {
            &&& agree_but(before, after, Part::Trades)
            &&& forall|a: Seq<char>| #[trigger]
                after.trades_at(a) == if listed(assets, a) {
                    trades_after(before.trades_at(a), a, trades@, trades@.len())
                } else {
                    before.trades_at(a)
                }
        },
        Incoming::L2Book(book) => if listed(assets, book.coin@) {
            &&& agree_but(before, after, Part::Books)
            &&& after.books@.dom() == before.books@.dom().insert(book.coin@)
            &&& after.books@[book.coin@].bids@ == book.levels[1]@
            &&& after.books@[book.coin@].asks@ == book.levels[0]@
            &&& after.books@[book.coin@].last_update_ms == book.time
            &&& forall|a: Seq<char>|
                a != book.coin@ ==> #[trigger] after.books@[a] == before.books@[a]
        } else {
            after == before
        },
        Incoming::Candle(c) => if listed(assets, c.coin@) {
            let bars = before.bars_at(c.coin@, c.interval@);
            &&& agree_but(before, after, Part::Bars)
            &&& after.bars_at(c.coin@, c.interval@) == Some(
                rolled(or_empty(bars), bar_of(f, c, last_close(bars)), before.max_bars as nat),
            )
            &&& forall|a: Seq<char>, i: Seq<char>|
                a != c.coin@ || i != c.interval@ ==> #[trigger] after.bars_at(a, i)
                    == before.bars_at(a, i)
        } else {
            after == before
        },
        Incoming::AllMids { mids } => {
            &&& agree_but(before, after, Part::Mids)
            &&& after.mids == mids
        },
        Incoming::ActiveAssetCtx { coin, ctx } => if listed(assets, coin@) {
            &&& agree_but(before, after, Part::AssetCtx)
            &&& after.asset_ctx@ == before.asset_ctx@.insert(coin@, snapshot_of(ctx))
        } else {
            after == before
        },
        Incoming::Other => after == before,
    }
}

fn handle_trades(trades: &Vec<Trade>, store: &mut DataStore, assets: &[Asset])
    ensures
        agree_but(*old(store), *final(store), Part::Trades),
        forall|a: Seq<char>| #[trigger]
            final(store).trades_at(a) == if listed(assets@, a) {
                trades_after(old(store).trades_at(a), a, trades@, trades@.len())
            } else {
                old(store).trades_at(a)
            },
{
    let mut n: usize = 0;
    while n < trades.len()
        invariant
            n <= trades@.len(),
            agree_but(*old(store), *store, Part::Trades),
            forall|a: Seq<char>| #[trigger]
                store.trades_at(a) == if listed(assets@, a) {
                    trades_after(old(store).trades_at(a), a, trades@, n as nat)
                } else {
                    old(store).trades_at(a)
                },
        decreases trades@.len() - n,
    {
        let ghost before = *store;
        if is_listed(assets, trades[n].coin.as_str()) {
            store.push_trade(trades[n].coin.as_str(), &trades[n]);
        }
        assert forall|a: Seq<char>| #[trigger]
            store.trades_at(a) == if listed(assets@, a) {
                trades_after(old(store).trades_at(a), a, trades@, (n + 1) as nat)
            } else {
                old(store).trades_at(a)
            } by {
            assert(before.trades_at(a) == if listed(assets@, a) {
                trades_after(old(store).trades_at(a), a, trades@, n as nat)
            } else {
                old(store).trades_at(a)
            });
        }
        n += 1;
    }
}

/// Takes a message of the exchange into the store.
pub fn handle_message<M: Fn(Elementary) -> Real>(
    msg: Incoming,
    store: &mut DataStore,
    assets: &[Asset],
    math: &M,
)
    requires
        is_function(*math),
    ensures
        handled(oracle(*math), *old(store), *final(store), msg, assets@),
        old(store).bounded() ==> final(store).bounded(),
{
    match msg {
        Incoming::Trades(trades) => {
            handle_trades(&trades, store, assets);
            proof {
                lemma_bounded_kept(*old(store), *store);
            }
        },
        Incoming::L2Book(book) => {
            if is_listed(assets, book.coin.as_str()) {
                store.update_book(book.coin.as_str(), &book);
                proof {
                    lemma_bounded_kept(*old(store), *store);
                }
            }
        },
        Incoming::Candle(candle) => {
            if is_listed(assets, candle.coin.as_str()) {
                let prev_close = match store.bars_for(
                    candle.coin.as_str(),
                    candle.interval.as_str(),
                ) {
                    Some(d) => if d.len() == 0 {
                        None
                    } else {
                        Some(d[d.len() - 1].close)
                    },
                    None => None,
                };
                let bar = Bar::from_candle(&candle, prev_close, math);
                store.push_bar(candle.coin.as_str(), candle.interval.as_str(), bar);
            }
        },
        Incoming::AllMids { mids } => {
            store.mids = mids;
            proof {
                lemma_bounded_kept(*old(store), *store);
            }
        },
        Incoming::ActiveAssetCtx { coin, ctx } => {
            if is_listed(assets, coin.as_str()) {
                let snap = AssetContextSnapshot {
                    funding_rate: or_zero(ctx.funding),
                    open_interest: or_zero(ctx.open_interest),
                    mark_px: or_zero(ctx.mark_px),
                    oracle_px: or_zero(ctx.oracle_px),
                    prev_day_px: or_zero(ctx.prev_day_px),
                };
                store.asset_ctx.insert(coin.as_str(), snap);
                proof {
                    lemma_bounded_kept(*old(store), *store);
                }
            }
        },
        Incoming::Other => {},
    }
}

/// A store with the same bars and funding samples is bounded alike.
proof fn lemma_bounded_kept(a: DataStore, b: DataStore)
    requires
        a.bars == b.bars,
        a.funding == b.funding,
        a.max_bars == b.max_bars,
    ensures
        a.bounded() ==> b.bounded(),
{
    assert forall|x: Seq<char>, i: Seq<char>| #[trigger] b.bars_at(x, i) == a.bars_at(x, i) by {}
    assert forall|x: Seq<char>| #[trigger] b.funding_at(x) == a.funding_at(x) by {}
}

} // verus!
