//! Feature rows, model outputs and regime of a tick.
use vstd::prelude::*;

use crate::assets::Asset;
use crate::data::store::DataStore;
use crate::data::table::Table;
use crate::features::assembler::{
    assemble_row, has_row, latest_close, row_of, with_row, FeatureRow, FeatureStore,
};
use crate::features::kalman::KalmanFilter;
use crate::hmm::model::{alpha_at, normalised, rows, HmmModel};
use crate::hmm::regime::{Regime, RegimeState};
use crate::live::tick::{
    estimate_hawkes, garch_vol_for, has_arrivals, held_ratio, hmm_observation, observation_of,
    ou_z_for, recent_returns, spread_z,
};
use crate::ml::ensemble::{class_confidence, EnsembleOutput, ModelEnsemble};
use crate::num::elementary::{is_function, oracle, Elementary, Oracle};
use crate::num::series::last_max;
use crate::num::Real;
use crate::orderbook::hawkes::{fitted, HawkesProcess};
use crate::risk::manager::PortfolioState;
use crate::stats::cointegration::OuProcess;
use crate::stats::garch::Garch11;
use crate::text::same_text;

verus! {

/// The cross-excitation of an asset's arrivals: that of a new model where there
/// are enough trades, otherwise that of the model held.
pub open spec fn arrivals_ratio(
    f: Oracle,
    store: DataStore,
    hawkes: Map<Seq<char>, HawkesProcess>,
    a: Seq<char>,
) -> Real {
    if store.trades_at(a) is None {
        Real::whole(0)
    } else {
        held_ratio(arrivals_after(f, store, hawkes, a), a)
    }
}

/// The arrival models after an asset's was refitted where there are enough
/// trades.
pub open spec fn arrivals_after(
    f: Oracle,
    store: DataStore,
    hawkes: Map<Seq<char>, HawkesProcess>,
    a: Seq<char>,
) -> Map<Seq<char>, HawkesProcess> {
    if has_arrivals(store, a) {
        hawkes.insert(a, fitted(f, store.trades_at(a)->0.buys, store.trades_at(a)->0.sells))
    } else {
        hawkes
    }
}

/// The volatility of an asset at a tick; one percent without a model or returns.
pub open spec fn tick_vol(garch: Map<Seq<char>, Garch11>, store: DataStore, a: Seq<char>) -> Real {
    if garch.contains_key(a) && recent_returns(store, a).len() > 0 {
        garch[a].sigma_ahead(recent_returns(store, a))
    } else {
        Real::ratio(1, 100)
    }
}

/// The feature row of an asset at a tick, with the filter before the latest
/// price and the arrival models before the tick.
pub open spec fn tick_row(
    f: Oracle,
    asset: Asset,
    store: DataStore,
    kalman: KalmanFilter,
    hawkes: Map<Seq<char>, HawkesProcess>,
    garch: Map<Seq<char>, Garch11>,
    ous: Seq<OuProcess>,
    now_ms: u64,
) -> FeatureRow {
    row_of(
        asset,
        store,
        kalman.updated(latest_close(store, asset.symbol@)),
        tick_vol(garch, store, asset.symbol@),
        spread_z(ous, store, asset.symbol@),
        recent_returns(store, "BTC"@),
        arrivals_ratio(f, store, hawkes, asset.symbol@),
        now_ms,
    )
}

/// What the models say of a row, if both models of the asset are trained.
pub open spec fn is_inference(
    out: Option<EnsembleOutput>,
    f: Oracle,
    ml: ModelEnsemble,
    a: Seq<char>,
    row: FeatureRow,
) -> bool {
    &&& out is Some <==> ml.trained(a)
    &&& out matches Some(o) ==> {
        let p = ml.classifiers@[a].proba_at(f, row.vector());
        &&& o.asset@ == a
        &&& (o.p_up, o.p_flat, o.p_down) == p
        &&& o.directional_edge == p.0 - p.2
        &&& o.signal_confidence == class_confidence(f, p)
        &&& o.predicted_vol_4h == ml.regressors@[a].value_at(row.vector()).max(
            Real::ratio(1, 1000),
        )
    }
}

/// The filters, arrival models and feature rows of all assets.
pub struct TickState {
    pub kalman: Map<Seq<char>, KalmanFilter>,
    pub hawkes: Map<Seq<char>, HawkesProcess>,
    pub rows: Map<Seq<char>, Seq<FeatureRow>>,
}

/// What a tick does to one asset: its arrival model is refitted where there are
/// enough trades, and with enough bars its filter takes the latest price and it
/// has one more row.
pub open spec fn asset_ticked(
    f: Oracle,
    asset: Asset,
    store: DataStore,
    s: TickState,
    garch: Map<Seq<char>, Garch11>,
    ous: Seq<OuProcess>,
    max_rows: nat,
    now_ms: u64,
) -> TickState {
    let a = asset.symbol@;
    let hawkes = arrivals_after(f, store, s.hawkes, a);
    if has_row(store, a) {
        let row = tick_row(f, asset, store, s.kalman[a], s.hawkes, garch, ous, now_ms);
        TickState {
            kalman: s.kalman.insert(a, s.kalman[a].updated(latest_close(store, a))),
            hawkes,
            rows: with_row(s.rows, row, max_rows),
        }
    } else {
        TickState { hawkes, ..s }
    }
}

/// The state after a tick brought the first `n` assets forward, one after the
/// other.
pub open spec fn assets_ticked(
    f: Oracle,
    assets: Seq<Asset>,
    n: nat,
    store: DataStore,
    start: TickState,
    garch: Map<Seq<char>, Garch11>,
    ous: Seq<OuProcess>,
    max_rows: nat,
    now_ms: u64,
) -> TickState
    decreases n,
{
    if n == 0 {
        start
    } else {
        asset_ticked(
            f,
            assets[n - 1],
            store,
            assets_ticked(
                f,
                assets,
                (n - 1) as nat,
                store,
                start,
                garch,
                ous,
                max_rows,
                now_ms,
            ),
            garch,
            ous,
            max_rows,
            now_ms,
        )
    }
}

/// What comes out for an asset, given the state before it: with enough bars what
/// the models say of its new row.
pub open spec fn is_output(
    out: Option<EnsembleOutput>,
    f: Oracle,
    asset: Asset,
    store: DataStore,
    s: TickState,
    garch: Map<Seq<char>, Garch11>,
    ous: Seq<OuProcess>,
    ml: ModelEnsemble,
    now_ms: u64,
) -> bool {
    let a = asset.symbol@;
    if has_row(store, a) {
        is_inference(
            out,
            f,
            ml,
            a,
            tick_row(f, asset, store, s.kalman[a], s.hawkes, garch, ous, now_ms),
        )
    } else {
        out is None
    }
}

/// Brings one asset to the tick.
fn tick_asset<M: Fn(Elementary) -> Real>(
    asset: &Asset,
    store: &DataStore,
    kalman: &mut Table<KalmanFilter>,
    hawkes: &mut Table<HawkesProcess>,
    feature_rows: &mut FeatureStore,
    garch: &Table<Garch11>,
    ous: &Vec<OuProcess>,
    ml: &ModelEnsemble,
    btc_returns: &Vec<Real>,
    now_ms: u64,
    math: &M,
) -> (r: Option<EnsembleOutput>)
    requires
        is_function(*math),
        ml.wf(),
        old(kalman)@.contains_key(asset.symbol@),
        btc_returns@ == recent_returns(*store, "BTC"@),
    ensures
        ({
            let before = TickState {
                kalman: old(kalman)@,
                hawkes: old(hawkes)@,
                rows: old(feature_rows).all_rows(),
            };
            &&& (TickState {
                kalman: final(kalman)@,
                hawkes: final(hawkes)@,
                rows: final(feature_rows).all_rows(),
            }) == asset_ticked(
                oracle(*math),
                *asset,
                *store,
                before,
                garch@,
                ous@,
                old(feature_rows).max_rows as nat,
                now_ms,
            )
            &&& is_output(
                r,
                oracle(*math),
                *asset,
                *store,
                before,
                garch@,
                ous@,
                *ml,
                now_ms,
            )
        }),
        final(feature_rows).max_rows == old(feature_rows).max_rows,
        old(feature_rows).bounded() ==> final(feature_rows).bounded(),
{
    let ghost k1 = kalman@;
    let sym = asset.symbol.as_str();
    let ratio = estimate_hawkes(store, sym, hawkes, math);
    let garch_vol = garch_vol_for(garch, store, sym);
    let ou_z = ou_z_for(ous, store, sym);
    let mut filter = match kalman.get(sym) {
        Some(held) => *held,
        None => {
            return None;
        },
    };
    let row = assemble_row(
        asset,
        store,
        &mut filter,
        garch_vol,
        ou_z,
        btc_returns.as_slice(),
        ratio,
        now_ms,
    );
    kalman.insert(sym, filter);
    match row {
        Some(row) => {
            let out = ml.predict(sym, &row, math);
            feature_rows.push(row);
            out
        },
        None => {
            assert(kalman@ =~= k1);
            None
        },
    }
}

/// Brings every asset to the tick: its arrival model, its filter, a new feature
/// row where there are enough bars, and what the models say of the row.
pub fn tick_features<M: Fn(Elementary) -> Real>(
    assets: &[Asset],
    store: &DataStore,
    kalman: &mut Table<KalmanFilter>,
    hawkes: &mut Table<HawkesProcess>,
    feature_rows: &mut FeatureStore,
    garch: &Table<Garch11>,
    ous: &Vec<OuProcess>,
    ml: &ModelEnsemble,
    now_ms: u64,
    math: &M,
) -> (r: Vec<Option<EnsembleOutput>>)
    requires
        is_function(*math),
        ml.wf(),
        forall|i: int|
            0 <= i < assets@.len() ==> old(kalman)@.contains_key(#[trigger] assets@[i].symbol@),
    ensures
        ({
            let start = TickState {
                kalman: old(kalman)@,
                hawkes: old(hawkes)@,
                rows: old(feature_rows).all_rows(),
            };
            let max = old(feature_rows).max_rows as nat;
            &&& (TickState {
                kalman: final(kalman)@,
                hawkes: final(hawkes)@,
                rows: final(feature_rows).all_rows(),
            }) == assets_ticked(
                oracle(*math),
                assets@,
                assets@.len(),
                *store,
                start,
                garch@,
                ous@,
                max,
                now_ms,
            )
            &&& r@.len() == assets@.len()
            &&& forall|i: int|
                0 <= i < r@.len() ==> is_output(
                    #[trigger] r@[i],
                    oracle(*math),
                    assets@[i],
                    *store,
                    assets_ticked(
                        oracle(*math),
                        assets@,
                        i as nat,
                        *store,
                        start,
                        garch@,
                        ous@,
                        max,
                        now_ms,
                    ),
                    garch@,
                    ous@,
                    *ml,
                    now_ms,
                )
        }),
        final(feature_rows).max_rows == old(feature_rows).max_rows,
        old(feature_rows).bounded() ==> final(feature_rows).bounded(),
{
    let ghost f = oracle(*math);
    let ghost start = TickState {
        kalman: kalman@,
        hawkes: hawkes@,
        rows: feature_rows.all_rows(),
    };
    let ghost max = feature_rows.max_rows as nat;
    let btc_returns = store.log_returns("BTC", "5m");
    let mut out: Vec<Option<EnsembleOutput>> = Vec::new();
    let mut n: usize = 0;
    while n < assets.len()
        invariant
            is_function(*math),
            f == oracle(*math),
            ml.wf(),
            n <= assets@.len(),
            forall|i: int|
                0 <= i < assets@.len() ==> kalman@.contains_key(#[trigger] assets@[i].symbol@),
            btc_returns@ == recent_returns(*store, "BTC"@),
            (TickState {
                kalman: kalman@,
                hawkes: hawkes@,
                rows: feature_rows.all_rows(),
            }) == assets_ticked(
                f,
                assets@,
                n as nat,
                *store,
                start,
                garch@,
                ous@,
                max,
                now_ms,
            ),
            out@.len() == n,
            forall|i: int|
                0 <= i < n ==> is_output(
                    #[trigger] out@[i],
                    f,
                    assets@[i],
                    *store,
                    assets_ticked(
                        f,
                        assets@,
                        i as nat,
                        *store,
                        start,
                        garch@,
                        ous@,
                        max,
                        now_ms,
                    ),
                    garch@,
                    ous@,
                    *ml,
                    now_ms,
                ),
            feature_rows.max_rows == max,
            feature_rows.max_rows == old(feature_rows).max_rows,
            old(feature_rows).bounded() ==> feature_rows.bounded(),
        decreases assets@.len() - n,
    {
        let asset = &assets[n];
        assert(kalman@.contains_key(assets@[n as int].symbol@));
        let o = tick_asset(
            asset,
            store,
            kalman,
            hawkes,
            feature_rows,
            garch,
            ous,
            ml,
            &btc_returns,
            now_ms,
            math,
        );
        out.push(o);
        n += 1;
    }
    out
}

/// The outputs that there are, in order.
pub open spec fn present(outs: Seq<Option<EnsembleOutput>>, n: nat) -> Seq<EnsembleOutput>
    decreases n,
{
    if n == 0 {
        Seq::empty()
    } else {
        match outs[n - 1] {
            Some(o) => present(outs, (n - 1) as nat).push(o),
            None => present(outs, (n - 1) as nat),
        }
    }
}

/// The place of the first output for an asset from `from` on, or their number.
pub open spec fn place_of(outs: Seq<EnsembleOutput>, a: Seq<char>, from: nat) -> nat
    decreases outs.len() - from,
{
    if from >= outs.len() || outs[from as int].asset@ == a {
        from
    } else {
        place_of(outs, a, from + 1)
    }
}

fn find_output(outs: &Vec<EnsembleOutput>, asset: &str) -> (r: Option<usize>)
    ensures
        ({
            let k = place_of(outs@, asset@, 0);
            if k < outs@.len() {
                r matches Some(i) && i == k
            } else {
                r is None
            }
        }),
{
    let mut i: usize = 0;
    while i < outs.len()
        invariant
            i <= outs@.len(),
            place_of(outs@, asset@, 0) == place_of(outs@, asset@, i as nat),
        decreases outs@.len() - i,
    {
        if same_text(outs[i].asset.as_str(), asset) {
            return Some(i);
        }
        i += 1;
    }
    None
}

/// The outputs that there are, in order.
pub fn present_outputs(outs: Vec<Option<EnsembleOutput>>) -> (r: Vec<EnsembleOutput>)
    ensures
        r@ == present(outs@, outs@.len()),
{
    let mut v: Vec<EnsembleOutput> = Vec::new();
    let ghost all = outs@;
    let mut rest = outs;
    let ghost mut n: int = 0;
    while rest.len() > 0
        invariant
            0 <= n,
            n + rest@.len() == all.len(),
            rest@ == all.skip(n),
            v@ == present(all, n as nat),
        decreases rest@.len(),
    {
        if let Some(o) = rest.remove(0) {
            v.push(o);
        }
        proof {
            n = n + 1;
            assert(rest@ =~= all.skip(n));
        }
    }
    v
}

/// The regime after a tick, if there are outputs for both anchors: that of the
/// single observation that the outputs and the portfolio make.
pub fn regime_after<M: Fn(Elementary) -> Real>(
    outs: &Vec<EnsembleOutput>,
    portfolio: &PortfolioState,
    hmm: &HmmModel,
    math: &M,
) -> (r: Option<RegimeState>)
    requires
        hmm.wf(),
        is_function(*math),
    ensures
        ({
            let b = place_of(outs@, "BTC"@, 0) as int;
            let e = place_of(outs@, "ETH"@, 0) as int;
            let obs = observation_of(outs@[b], outs@[e], outs@, *portfolio);
            let post = normalised(alpha_at(oracle(*math), hmm.params(), seq![obs], 0));
            if b < outs@.len() && e < outs@.len() {
                r matches Some(s) && s.posterior@ == post && s.regime == Regime::of(last_max(post))
                    && s.probability == post[last_max(post)]
            } else {
                r is None
            }
        }),
{
    let b: usize = find_output(outs, "BTC")?;
    let e: usize = find_output(outs, "ETH")?;
    let obs = hmm_observation(&outs[b], &outs[e], outs, portfolio);
    let ghost seen = obs@;
    let mut single: Vec<Vec<Real>> = Vec::new();
    single.push(obs);
    let r = hmm.filter_last(&single, math);
    assert(rows(single@) =~= seq![seen]);
    Some(r)
}

} // verus!
