//! Refitting of all models from the data store.
use vstd::prelude::*;

use crate::assets::Asset;
use crate::data::store::{or_empty, Bar, DataStore};
use crate::data::table::Table;
use crate::features::assembler::{
    assemble_row, has_row, latest_close, returns_at, row_of, with_row, FeatureRow, FeatureStore,
};
use crate::features::kalman::KalmanFilter;
use crate::live::tick::{ou_z_for, recent_returns, spread_z};
use crate::ml::ensemble::{
    labels_of, row_samples, trained_on, vols_of, ModelEnsemble,
};
use crate::ml::gradient_boost::indicator;
use crate::num::elementary::{is_function, oracle, Elementary, Oracle};
use crate::num::series::all_numbers;
use crate::num::Real;
use crate::stats::cointegration::{
    adf_of, find_cointegrated_pairs, fit_ou, is_process, is_test, line_of, partners, residuals_of,
    testable, testable_pairs, are_tests, CointegrationResult, OuProcess,
};
use crate::stats::distribution::{is_best, ReturnDist};
use crate::stats::garch::{fitted, Garch11};

verus! {

/// A symbol is that of one of the first `n` assets.
pub open spec fn among(assets: Seq<Asset>, n: int, symbol: Seq<char>) -> bool {
    exists|i: int| 0 <= i < n && #[trigger] assets[i].symbol@ == symbol
}

/// The volatility and distribution models of a symbol: fitted to its hourly returns
/// where it is refitted and there are enough, and otherwise what they were.
pub open spec fn refit_at(
    f: Oracle,
    rets: Seq<Real>,
    refit: bool,
    a: Seq<char>,
    garch0: Map<Seq<char>, Garch11>,
    garch: Map<Seq<char>, Garch11>,
    dists0: Map<Seq<char>, ReturnDist>,
    dists: Map<Seq<char>, ReturnDist>,
) -> bool {
    &&& if refit && rets.len() >= 50 {
        garch.contains_key(a) && garch[a] == fitted(f, rets)
    } else {
        garch.contains_key(a) == garch0.contains_key(a) && garch[a] == garch0[a]
    }
    &&& if refit && rets.len() >= 30 {
        dists.contains_key(a) && dists[a].wf() && is_best(dists[a], f, rets)
    } else {
        dists.contains_key(a) == dists0.contains_key(a) && dists[a] == dists0[a]
    }
}

/// The volatility and distribution models after refitting the first `n` assets.
pub open spec fn returns_refitted(
    f: Oracle,
    store: DataStore,
    assets: Seq<Asset>,
    n: int,
    garch0: Map<Seq<char>, Garch11>,
    garch: Map<Seq<char>, Garch11>,
    dists0: Map<Seq<char>, ReturnDist>,
    dists: Map<Seq<char>, ReturnDist>,
) -> bool {
    forall|a: Seq<char>|
        refit_at(
            f,
            returns_at(store, a, "1h"@),
            #[trigger] among(assets, n, a),
            a,
            garch0,
            garch,
            dists0,
            dists,
        )
}

/// Where there are enough returns for a distribution, they are numbers.
pub open spec fn fittable(rets: Seq<Real>) -> bool {
    rets.len() >= 30 ==> all_numbers(rets)
}

/// Refits the volatility and distribution models of all assets with enough hourly
/// returns.
pub fn refit_returns<M: Fn(Elementary) -> Real>(
    store: &DataStore,
    assets: &[Asset],
    garch: &mut Table<Garch11>,
    dists: &mut Table<ReturnDist>,
    math: &M,
)
    requires
        is_function(*math),
        forall|i: int|
            0 <= i < assets@.len() ==> fittable(
                returns_at(*store, #[trigger] assets@[i].symbol@, "1h"@),
            ),
    ensures
        returns_refitted(
            oracle(*math),
            *store,
            assets@,
            assets@.len() as int,
            old(garch)@,
            final(garch)@,
            old(dists)@,
            final(dists)@,
        ),
{
    let ghost f = oracle(*math);
    let mut n: usize = 0;
    while n < assets.len()
        invariant
            is_function(*math),
            f == oracle(*math),
            n <= assets@.len(),
            forall|i: int|
                0 <= i < assets@.len() ==> fittable(
                    returns_at(*store, #[trigger] assets@[i].symbol@, "1h"@),
                ),
            returns_refitted(
                f,
                *store,
                assets@,
                n as int,
                old(garch)@,
                garch@,
                old(dists)@,
                dists@,
            ),
        decreases assets@.len() - n,
    {
        let ghost g1 = garch@;
        let ghost d1 = dists@;
        let sym = assets[n].symbol.as_str();
        let rets = store.log_returns(sym, "1h");
        assert(rets@ == returns_at(*store, assets@[n as int].symbol@, "1h"@));
        if rets.len() >= 50 {
            if let Ok(g) = Garch11::fit(rets.as_slice(), math) {
                garch.insert(sym, g);
            }
        }
        if rets.len() >= 30 {
            if let Ok(d) = ReturnDist::fit_best(rets.as_slice(), math) {
                dists.insert(sym, d);
            }
        }
        proof {
            assert forall|a: Seq<char>|
                refit_at(
                    f,
                    returns_at(*store, a, "1h"@),
                    #[trigger] among(assets@, n + 1, a),
                    a,
                    old(garch)@,
                    garch@,
                    old(dists)@,
                    dists@,
                ) by {
                lemma_among_next(assets@, n as int, a);
                assert(refit_at(
                    f,
                    returns_at(*store, a, "1h"@),
                    among(assets@, n as int, a),
                    a,
                    old(garch)@,
                    g1,
                    old(dists)@,
                    d1,
                ));
            }
        }
        n += 1;
    }
}

proof fn lemma_among_next(assets: Seq<Asset>, n: int, symbol: Seq<char>)
    requires
        0 <= n < assets.len(),
    ensures
        among(assets, n + 1, symbol) <==> among(assets, n, symbol) || assets[n].symbol@ == symbol,
{
    if among(assets, n, symbol) {
        let i = choose|i: int| 0 <= i < n && #[trigger] assets[i].symbol@ == symbol;
        assert(assets[i].symbol@ == symbol);
    }
    if assets[n].symbol@ == symbol {
        assert(assets[n].symbol@ == symbol);
    }
}

/// The daily closes of a symbol.
pub open spec fn daily_closes(store: DataStore, symbol: Seq<char>) -> Seq<Real> {
    or_empty(store.bars_at(symbol, "1d"@)).map_values(|b: Bar| b.close)
}

/// The price series hold, in order, the daily closes of the first `n` assets that
/// have at least thirty.
pub open spec fn are_price_series(
    prices: Seq<(String, Vec<Real>)>,
    store: DataStore,
    assets: Seq<Asset>,
    n: nat,
) -> bool {
    let places = with_prices(store, assets, n);
    &&& prices.len() == places.len()
    &&& forall|k: int|
        0 <= k < prices.len() ==> (#[trigger] prices[k]).0@ == assets[places[k]].symbol@
            && prices[k].1@ == daily_closes(store, assets[places[k]].symbol@)
}

/// The places of the first `n` assets that have at least thirty daily closes.
pub open spec fn with_prices(store: DataStore, assets: Seq<Asset>, n: nat) -> Seq<int>
    decreases n,
{
    if n == 0 {
        Seq::empty()
    } else {
        let before = with_prices(store, assets, (n - 1) as nat);
        if daily_closes(store, assets[n - 1].symbol@).len() >= 30 {
            before.push(n - 1)
        } else {
            before
        }
    }
}

/// The residuals of two price series are stationary at five percent.
pub open spec fn cointegrated(p1: Seq<Real>, p2: Seq<Real>) -> bool {
    let (alpha, beta) = line_of(p1, p2);
    adf_of(residuals_of(p1, p2, alpha, beta)) < Real::ratio(286, 100).neg()
}

/// The cointegrated ones of the first `n` pairs.
pub open spec fn cointegrated_pairs(
    prices: Seq<(String, Vec<Real>)>,
    pairs: Seq<(int, int)>,
    n: nat,
) -> Seq<(int, int)>
    decreases n,
{
    if n == 0 {
        Seq::empty()
    } else {
        let before = cointegrated_pairs(prices, pairs, (n - 1) as nat);
        let (i, j) = pairs[n - 1];
        if cointegrated(prices[i].1@, prices[j].1@) {
            before.push(pairs[n - 1])
        } else {
            before
        }
    }
}

/// The process is that of the spread of two price series.
pub open spec fn is_spread_of(
    ou: OuProcess,
    f: Oracle,
    a: (String, Vec<Real>),
    b: (String, Vec<Real>),
) -> bool {
    exists|c: CointegrationResult|
        is_test(c, a.0@, b.0@, a.1@, b.1@) && #[trigger] is_process(ou, f, c, a.1@, b.1@)
}

/// The processes are those of the spreads of all cointegrated pairs, in order.
pub open spec fn are_spreads(
    ous: Seq<OuProcess>,
    f: Oracle,
    prices: Seq<(String, Vec<Real>)>,
    pairs: Seq<(int, int)>,
) -> bool {
    &&& ous.len() == pairs.len()
    &&& forall|k: int|
        0 <= k < ous.len() ==> is_spread_of(
            #[trigger] ous[k],
            f,
            prices[pairs[k].0],
            prices[pairs[k].1],
        )
}

/// The spreads after refitting: those of all cointegrated pairs of assets with
/// equally many daily closes, at least thirty.
pub open spec fn spreads_refitted(
    ous: Seq<OuProcess>,
    f: Oracle,
    store: DataStore,
    assets: Seq<Asset>,
) -> bool {
    exists|prices: Seq<(String, Vec<Real>)>|
        #[trigger] are_price_series(prices, store, assets, assets.len()) && are_spreads(
            ous,
            f,
            prices,
            cointegrated_pairs(
                prices,
                testable_pairs(prices, prices.len()),
                testable_pairs(prices, prices.len()).len(),
            ),
        )
}

proof fn lemma_pairs_in_range(prices: Seq<(String, Vec<Real>)>, n: nat)
    requires
        n <= prices.len(),
    ensures
        forall|k: int|
            0 <= k < testable_pairs(prices, n).len() ==> {
                let p = #[trigger] testable_pairs(prices, n)[k];
                0 <= p.0 < prices.len() && 0 <= p.1 < prices.len() && testable(prices, p.0, p.1)
            },
    decreases n,
{
    if n > 0 {
        lemma_pairs_in_range(prices, (n - 1) as nat);
        lemma_partners_in_range(prices, n - 1, prices.len());
        let a = testable_pairs(prices, (n - 1) as nat);
        let b = partners(prices, n - 1, prices.len());
        assert forall|k: int| 0 <= k < (a + b).len() implies {
            let p = #[trigger] (a + b)[k];
            0 <= p.0 < prices.len() && 0 <= p.1 < prices.len() && testable(prices, p.0, p.1)
        } by {
            if k < a.len() {
                assert((a + b)[k] == a[k]);
            } else {
                assert((a + b)[k] == b[k - a.len()]);
            }
        }
    }
}

proof fn lemma_partners_in_range(prices: Seq<(String, Vec<Real>)>, i: int, n: nat)
    requires
        0 <= i < prices.len(),
        n <= prices.len(),
    ensures
        forall|k: int|
            0 <= k < partners(prices, i, n).len() ==> {
                let p = #[trigger] partners(prices, i, n)[k];
                0 <= p.0 < prices.len() && 0 <= p.1 < prices.len() && testable(prices, p.0, p.1)
            },
    decreases n,
{
    if !(n == 0 || n <= i + 1) {
        lemma_partners_in_range(prices, i, (n - 1) as nat);
        let before = partners(prices, i, (n - 1) as nat);
        let all = partners(prices, i, n);
        assert forall|k: int| 0 <= k < all.len() implies {
            let p = #[trigger] all[k];
            0 <= p.0 < prices.len() && 0 <= p.1 < prices.len() && testable(prices, p.0, p.1)
        } by {
            if k < before.len() {
                assert(all[k] == before[k]);
            }
        }
    }
}

/// Refits the spreads of all cointegrated pairs of assets.
pub fn refit_spreads<M: Fn(Elementary) -> Real>(
    store: &DataStore,
    assets: &[Asset],
    ous: &mut Vec<OuProcess>,
    math: &M,
)
    requires
        is_function(*math),
    ensures
        spreads_refitted(final(ous)@, oracle(*math), *store, assets@),
{
    let ghost f = oracle(*math);
    let mut prices: Vec<(String, Vec<Real>)> = Vec::new();
    let mut n: usize = 0;
    while n < assets.len()
        invariant
            n <= assets@.len(),
            are_price_series(prices@, *store, assets@, n as nat),
        decreases assets@.len() - n,
    {
        let closes = store.closes(assets[n].symbol.as_str(), "1d");
        assert(closes@ == daily_closes(*store, assets@[n as int].symbol@));
        if closes.len() >= 30 {
            prices.push((assets[n].symbol.clone(), closes));
        }
        n += 1;
    }
    let results = find_cointegrated_pairs(prices.as_slice());
    let ghost pairs = testable_pairs(prices@, prices@.len());
    proof {
        lemma_pairs_in_range(prices@, prices@.len());
    }
    let mut fresh: Vec<OuProcess> = Vec::new();
    let mut k: usize = 0;
    while k < results.len()
        invariant
            is_function(*math),
            f == oracle(*math),
            k <= results@.len(),
            are_price_series(prices@, *store, assets@, assets@.len()),
            pairs == testable_pairs(prices@, prices@.len()),
            are_tests(results@, prices@, pairs),
            forall|k: int|
                0 <= k < pairs.len() ==> {
                    let p = #[trigger] pairs[k];
                    0 <= p.0 < prices@.len() && 0 <= p.1 < prices@.len() && testable(
                        prices@,
                        p.0,
                        p.1,
                    )
                },
            are_spreads(fresh@, f, prices@, cointegrated_pairs(prices@, pairs, k as nat)),
        decreases results@.len() - k,
    {
        let cr = &results[k];
        let ghost (i, j) = pairs[k as int];
        assert(is_test(*cr, prices@[i].0@, prices@[j].0@, prices@[i].1@, prices@[j].1@));
        let ghost before = fresh@;
        if cr.is_cointegrated {
            let p1 = store.closes(cr.asset1.as_str(), "1d");
            let p2 = store.closes(cr.asset2.as_str(), "1d");
            proof {
                assert(prices@[i].1@ == daily_closes(*store, prices@[i].0@));
                assert(prices@[j].1@ == daily_closes(*store, prices@[j].0@));
                assert(p1@ == prices@[i].1@ && p2@ == prices@[j].1@);
            }
            if let Ok(ou) = fit_ou(cr, p1.as_slice(), p2.as_slice(), math) {
                assert(is_spread_of(ou, f, prices@[i], prices@[j]));
                fresh.push(ou);
            }
        }
        proof {
            let done = cointegrated_pairs(prices@, pairs, (k + 1) as nat);
            let old_done = cointegrated_pairs(prices@, pairs, k as nat);
            assert forall|m: int| 0 <= m < fresh@.len() implies is_spread_of(
                #[trigger] fresh@[m],
                f,
                prices@[done[m].0],
                prices@[done[m].1],
            ) by {
                if m < before.len() {
                    assert(fresh@[m] == before[m]);
                    assert(done[m] == old_done[m]);
                }
            }
        }
        k += 1;
    }
    *ous = fresh;
}

/// The volatility of an asset for its feature row; one percent without a model.
pub open spec fn row_vol(
    garch: Map<Seq<char>, Garch11>,
    store: DataStore,
    symbol: Seq<char>,
) -> Real {
    if garch.contains_key(symbol) {
        garch[symbol].sigma_ahead(recent_returns(store, symbol))
    } else {
        Real::ratio(1, 100)
    }
}

/// The feature row of an asset, with the filter before the latest price.
pub open spec fn fresh_row(
    asset: Asset,
    store: DataStore,
    kalman: KalmanFilter,
    garch: Map<Seq<char>, Garch11>,
    ous: Seq<OuProcess>,
    now_ms: u64,
) -> FeatureRow {
    row_of(
        asset,
        store,
        kalman.updated(latest_close(store, asset.symbol@)),
        row_vol(garch, store, asset.symbol@),
        spread_z(ous, store, asset.symbol@),
        recent_returns(store, "BTC"@),
        Real::whole(0),
        now_ms,
    )
}

/// The filters and the feature rows of all assets.
pub struct RowState {
    pub kalman: Map<Seq<char>, KalmanFilter>,
    pub rows: Map<Seq<char>, Seq<FeatureRow>>,
}

/// The filters and feature rows after refreshing the first `n` assets, one after
/// the other: each with enough bars has one more row, and a filter that took the
/// latest price.
pub open spec fn rows_refreshed(
    store: DataStore,
    assets: Seq<Asset>,
    n: nat,
    start: RowState,
    garch: Map<Seq<char>, Garch11>,
    ous: Seq<OuProcess>,
    max_rows: nat,
    now_ms: u64,
) -> RowState
    decreases n,
{
    if n == 0 {
        start
    } else {
        let s = rows_refreshed(
            store,
            assets,
            (n - 1) as nat,
            start,
            garch,
            ous,
            max_rows,
            now_ms,
        );
        let asset = assets[n - 1];
        let a = asset.symbol@;
        if has_row(store, a) {
            let row = fresh_row(asset, store, s.kalman[a], garch, ous, now_ms);
            RowState {
                kalman: s.kalman.insert(a, s.kalman[a].updated(latest_close(store, a))),
                rows: with_row(s.rows, row, max_rows),
            }
        } else {
            s
        }
    }
}

/// Adds a feature row for every asset with enough bars.
pub fn refresh_rows(
    store: &DataStore,
    assets: &[Asset],
    kalman: &mut Table<KalmanFilter>,
    garch: &Table<Garch11>,
    ous: &Vec<OuProcess>,
    rows: &mut FeatureStore,
    now_ms: u64,
)
    requires
        forall|i: int|
            0 <= i < assets@.len() ==> old(kalman)@.contains_key(#[trigger] assets@[i].symbol@),
    ensures
        (RowState { kalman: final(kalman)@, rows: final(rows).all_rows() }) == rows_refreshed(
            *store,
            assets@,
            assets@.len(),
            RowState { kalman: old(kalman)@, rows: old(rows).all_rows() },
            garch@,
            ous@,
            old(rows).max_rows as nat,
            now_ms,
        ),
        final(rows).max_rows == old(rows).max_rows,
        old(rows).bounded() ==> final(rows).bounded(),
{
    let ghost start = RowState { kalman: kalman@, rows: rows.all_rows() };
    let ghost max = rows.max_rows as nat;
    let btc_returns = store.log_returns("BTC", "5m");
    let mut n: usize = 0;
    while n < assets.len()
        invariant
            n <= assets@.len(),
            forall|i: int|
                0 <= i < assets@.len() ==> kalman@.contains_key(#[trigger] assets@[i].symbol@),
            btc_returns@ == recent_returns(*store, "BTC"@),
            (RowState { kalman: kalman@, rows: rows.all_rows() }) == rows_refreshed(
                *store,
                assets@,
                n as nat,
                start,
                garch@,
                ous@,
                max,
                now_ms,
            ),
            rows.max_rows == max,
            rows.max_rows == old(rows).max_rows,
            old(rows).bounded() ==> rows.bounded(),
        decreases assets@.len() - n,
    {
        let ghost k1 = kalman@;
        let asset = &assets[n];
        let sym = asset.symbol.as_str();
        assert(kalman@.contains_key(assets@[n as int].symbol@));
        let garch_vol = match garch.get(sym) {
            Some(g) => {
                let rets = store.log_returns(sym, "5m");
                g.forecast_sigma(rets.as_slice())
            },
            None => Real::ratio(1, 100),
        };
        let ou_z = ou_z_for(ous, store, sym);
        if let Some(held) = kalman.get(sym) {
            let mut filter = *held;
            let row = assemble_row(
                asset,
                store,
                &mut filter,
                garch_vol,
                ou_z,
                btc_returns.as_slice(),
                Real::whole(0),
                now_ms,
            );
            kalman.insert(sym, filter);
            if let Some(row) = row {
                rows.push(row);
            }
        }
        assert(!has_row(*store, asset.symbol@) ==> kalman@ =~= k1);
        n += 1;
    }
}

/// How many rows ahead the models look.
pub const HORIZON: usize = 48;

/// Least number of rows to train on.
pub const MIN_ROWS: usize = 68;

/// The models of a symbol are trained on its rows.
pub open spec fn models_trained(
    f: Oracle,
    ml: ModelEnsemble,
    symbol: Seq<char>,
    rows: Seq<FeatureRow>,
) -> bool {
    let n = (rows.len() - HORIZON) as nat;
    let xs = row_samples(rows, n);
    let labels = labels_of(f, rows, HORIZON as int, n);
    let (e, lr, d) = (ml.n_estimators, ml.learning_rate, ml.max_depth);
    let c = ml.classifiers@[symbol];
    &&& ml.classifiers@.contains_key(symbol)
    &&& ml.regressors@.contains_key(symbol)
    &&& trained_on(c.up, xs, indicator(labels, 1), e, lr, d)
    &&& trained_on(c.flat, xs, indicator(labels, 0), e, lr, d)
    &&& trained_on(c.down, xs, indicator(labels, -1i8), e, lr, d)
    &&& trained_on(ml.regressors@[symbol], xs, vols_of(rows, HORIZON as nat, n), e, lr, d)
}

/// The models of a symbol are what they were.
pub open spec fn models_kept(before: ModelEnsemble, after: ModelEnsemble, symbol: Seq<char>) -> bool {
    &&& after.classifiers@.contains_key(symbol) == before.classifiers@.contains_key(symbol)
    &&& after.classifiers@[symbol] == before.classifiers@[symbol]
    &&& after.regressors@.contains_key(symbol) == before.regressors@.contains_key(symbol)
    &&& after.regressors@[symbol] == before.regressors@[symbol]
}

/// A symbol has enough rows to train on.
pub open spec fn trainable(rows: FeatureStore, symbol: Seq<char>) -> bool {
    or_empty(rows.rows_at(symbol)).len() >= MIN_ROWS
}

/// The models after training the first `n` assets: those with enough rows are
/// trained on them, all others are what they were.
pub open spec fn models_retrained(
    f: Oracle,
    before: ModelEnsemble,
    after: ModelEnsemble,
    rows: FeatureStore,
    assets: Seq<Asset>,
    n: int,
) -> bool {
    &&& after.n_estimators == before.n_estimators
    &&& after.learning_rate == before.learning_rate
    &&& after.max_depth == before.max_depth
    &&& forall|a: Seq<char>| models_at(f, before, after, rows, #[trigger] among(assets, n, a), a)
}

/// The models of a symbol: trained on its rows where it is retrained and there are
/// enough, and otherwise what they were.
pub open spec fn models_at(
    f: Oracle,
    before: ModelEnsemble,
    after: ModelEnsemble,
    rows: FeatureStore,
    retrained: bool,
    a: Seq<char>,
) -> bool {
    if retrained && trainable(rows, a) {
        models_trained(f, after, a, or_empty(rows.rows_at(a)))
    } else {
        models_kept(before, after, a)
    }
}

/// Trains the models of all assets with enough feature rows.
pub fn retrain_models<M: Fn(Elementary) -> Real>(
    assets: &[Asset],
    rows: &FeatureStore,
    ml: &mut ModelEnsemble,
    math: &M,
)
    requires
        is_function(*math),
    ensures
        models_retrained(
            oracle(*math),
            *old(ml),
            *final(ml),
            *rows,
            assets@,
            assets@.len() as int,
        ),
        old(ml).wf() ==> final(ml).wf(),
{
    let ghost f = oracle(*math);
    let mut n: usize = 0;
    while n < assets.len()
        invariant
            is_function(*math),
            f == oracle(*math),
            n <= assets@.len(),
            models_retrained(f, *old(ml), *ml, *rows, assets@, n as int),
            old(ml).wf() ==> ml.wf(),
        decreases assets@.len() - n,
    {
        let ghost before = *ml;
        let sym = assets[n].symbol.as_str();
        let ghost s = assets@[n as int].symbol@;
        if let Some(r) = rows.rows.get(sym) {
            if r.len() >= MIN_ROWS {
                let _ = ml.train(sym, r, HORIZON, math);
            }
        }
        proof {
            assert forall|a: Seq<char>|
                models_at(
                    f,
                    *old(ml),
                    *ml,
                    *rows,
                    #[trigger] among(assets@, n + 1, a),
                    a,
                ) by {
                lemma_among_next(assets@, n as int, a);
                assert(models_at(f, *old(ml), before, *rows, among(assets@, n as int, a), a));
                if a != s {
                    assert(ml.classifiers@[a] == before.classifiers@[a]);
                    assert(ml.regressors@[a] == before.regressors@[a]);
                    assert(ml.classifiers@.dom().contains(a) == before.classifiers@.dom().contains(
                        a,
                    ));
                    assert(ml.regressors@.dom().contains(a) == before.regressors@.dom().contains(
                        a,
                    ));
                } else if trainable(*rows, a) {
                    assert(ml.classifiers@.dom().contains(a));
                    assert(ml.regressors@.dom().contains(a));
                }
            }
        }
        n += 1;
    }
}

/// Refits every model from the data store: volatilities and distributions, the
/// spreads of cointegrated pairs, one more feature row per asset, and the boosted
/// models of assets with enough rows.
pub fn retrain_all<M: Fn(Elementary) -> Real>(
    store: &DataStore,
    assets: &[Asset],
    kalman_filters: &mut Table<KalmanFilter>,
    garch_models: &mut Table<Garch11>,
    dist_models: &mut Table<ReturnDist>,
    ou_processes: &mut Vec<OuProcess>,
    feature_store: &mut FeatureStore,
    ml_ensemble: &mut ModelEnsemble,
    now_ms: u64,
    math: &M,
)
    requires
        is_function(*math),
        forall|i: int|
            0 <= i < assets@.len() ==> old(kalman_filters)@.contains_key(
                #[trigger] assets@[i].symbol@,
            ) && fittable(
                returns_at(*store, assets@[i].symbol@, "1h"@),
            ),
    ensures
        returns_refitted(
            oracle(*math),
            *store,
            assets@,
            assets@.len() as int,
            old(garch_models)@,
            final(garch_models)@,
            old(dist_models)@,
            final(dist_models)@,
        ),
        spreads_refitted(final(ou_processes)@, oracle(*math), *store, assets@),
        (RowState {
            kalman: final(kalman_filters)@,
            rows: final(feature_store).all_rows(),
        }) == rows_refreshed(
            *store,
            assets@,
            assets@.len(),
            RowState { kalman: old(kalman_filters)@, rows: old(feature_store).all_rows() },
            final(garch_models)@,
            final(ou_processes)@,
            old(feature_store).max_rows as nat,
            now_ms,
        ),
        final(feature_store).max_rows == old(feature_store).max_rows,
        models_retrained(
            oracle(*math),
            *old(ml_ensemble),
            *final(ml_ensemble),
            *final(feature_store),
            assets@,
            assets@.len() as int,
        ),
        old(feature_store).bounded() ==> final(feature_store).bounded(),
        old(ml_ensemble).wf() ==> final(ml_ensemble).wf(),
{
    refit_returns(store, assets, garch_models, dist_models, math);
    refit_spreads(store, assets, ou_processes, math);
    refresh_rows(
        store,
        assets,
        kalman_filters,
        garch_models,
        ou_processes,
        feature_store,
        now_ms,
    );
    retrain_models(assets, feature_store, ml_ensemble, math);
}

} // verus!
