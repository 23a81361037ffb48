//! What a tick keeps, and what it takes from the data.
use vstd::arithmetic::power2::{lemma_pow2_pos, pow2};
use vstd::prelude::*;

use crate::assets::Asset;
use crate::data::store::{DataStore, OrderBookState};
use crate::execution::executor::{closing_of, entry_of};
use crate::execution::orders::takes_back;
use crate::features::assembler::{has_row, latest_close, FeatureRow};
use crate::live::features::{arrivals_ratio, asset_ticked, is_inference, tick_vol, TickState};
use crate::live::positions::{due, position_of, price_or, MAX_HOLD_MS};
use crate::live::tick::{cost_of, first_spread, observation_of, spread_z, vols_of};
use crate::ml::ensemble::{EnsembleOutput, ModelEnsemble};
use crate::num::elementary::Oracle;
use crate::num::ops::lemma_order_key;
use crate::num::order::{lemma_count, lemma_whole};
use crate::num::rules::{is_quotient, is_sum, lemma_operations_are_close, lemma_small_ratio};
use crate::num::series::sum_of_seq;
use crate::num::Real;
use crate::risk::manager::{PortfolioState, Position};
use crate::signals::generator::TradeSignal;
use crate::stats::cointegration::OuProcess;
use crate::stats::garch::Garch11;

verus! {

/// A tick on one asset leaves the filters, the arrival models and the rows of all others
/// alone, and with too few bars its own filter and rows too.
pub proof fn tick_leaves_other_assets_alone(
    f: Oracle,
    asset: Asset,
    store: DataStore,
    s: TickState,
    garch: Map<Seq<char>, Garch11>,
    ous: Seq<OuProcess>,
    max_rows: nat,
    now: u64,
    b: Seq<char>,
)
    requires
        b != asset.symbol@,
    ensures
        ({
            let t = asset_ticked(f, asset, store, s, garch, ous, max_rows, now);
            &&& t.kalman.contains_key(b) == s.kalman.contains_key(b) && t.kalman[b] == s.kalman[b]
            &&& t.hawkes.contains_key(b) == s.hawkes.contains_key(b) && t.hawkes[b] == s.hawkes[b]
            &&& t.rows.contains_key(b) == s.rows.contains_key(b) && t.rows[b] == s.rows[b]
            &&& !has_row(store, asset.symbol@) ==> t.kalman == s.kalman && t.rows == s.rows
        }),
{
}

/// The row that a tick adds holds the level and the velocity of the filter after the latest
/// close, which is the one kept.
pub proof fn new_row_holds_the_new_filter(
    f: Oracle,
    asset: Asset,
    store: DataStore,
    s: TickState,
    garch: Map<Seq<char>, Garch11>,
    ous: Seq<OuProcess>,
    max_rows: nat,
    now: u64,
)
    requires
        has_row(store, asset.symbol@),
        max_rows > 0,
        s.rows.contains_key(asset.symbol@) ==> s.rows[asset.symbol@].len() <= max_rows,
    ensures
        ({
            let a = asset.symbol@;
            let t = asset_ticked(f, asset, store, s, garch, ous, max_rows, now);
            let row = t.rows[a].last();
            &&& t.rows[a].len() > 0
            &&& t.rows[a].len() <= max_rows
            &&& t.kalman[a] == s.kalman[a].updated(latest_close(store, a))
            &&& row.kalman_level == t.kalman[a].x.x
            &&& row.kalman_velocity == t.kalman[a].x.y
            &&& row.timestamp_ms == now
            &&& row.garch_vol == tick_vol(garch, store, a)
            &&& row.ou_z_score == spread_z(ous, store, a)
            &&& row.hawkes_cross_ratio == arrivals_ratio(f, store, s.hawkes, a)
        }),
{
}

/// What the models say names the asset and is of its probabilities: the edge is that of up
/// less that of down, up to rounding, and the volatility has a floor.
pub proof fn inference_is_of_its_asset(
    out: EnsembleOutput,
    f: Oracle,
    ml: ModelEnsemble,
    a: Seq<char>,
    row: FeatureRow,
)
    requires
        is_inference(Some(out), f, ml, a, row),
        out.directional_edge.finite(),
    ensures
        ml.trained(a),
        out.asset@ == a,
        is_sum(out.directional_edge, out.p_up, out.p_down.neg()),
        (out.p_up, out.p_flat, out.p_down) == ml.classifiers@[a].proba_at(f, row.vector()),
        Real::ratio(1, 1000) <= out.predicted_vol_4h,
{
    lemma_operations_are_close(out.p_up, out.p_down);
    lemma_small_ratio(1000);
    crate::num::order::lemma_ratio_order(1, 1000, 1, 1000);
    let v = ml.regressors@[a].value_at(row.vector());
    if !v.nan() {
        lemma_order_key(Real::ratio(1, 1000), v);
    }
}

/// The score of an asset's spread is of the first spread that it is part of; one that is
/// part of none has no score.
pub proof fn spread_is_the_first_of_its_asset(
    ous: Seq<OuProcess>,
    store: DataStore,
    from: nat,
    asset: Seq<char>,
)
    requires
        from <= ous.len(),
    ensures
        ({
            let k = first_spread(ous, from, asset);
            &&& from <= k <= ous.len()
            &&& k < ous.len() ==> ous[k as int].asset1@ == asset || ous[k as int].asset2@ == asset
            &&& forall|i: int|
                from <= i < k ==> (#[trigger] ous[i]).asset1@ != asset && ous[i].asset2@ != asset
        }),
        (forall|i: int|
            0 <= i < ous.len() ==> (#[trigger] ous[i]).asset1@ != asset && ous[i].asset2@ != asset)
            && from == 0 ==> spread_z(ous, store, asset) == Real::whole(0),
    decreases ous.len() - from,
{
    if from < ous.len() && ous[from as int].asset1@ != asset && ous[from as int].asset2@ != asset {
        spread_is_the_first_of_its_asset(ous, store, from + 1, asset);
    }
}

/// The price of an asset with a book is the mid price, and its cost the spread; without a
/// book both fall back.
pub proof fn book_decides_price_and_cost(
    store: DataStore,
    asset: Seq<char>,
    fallback: Real,
    cost: Real,
)
    ensures
        store.books@.contains_key(asset) && store.books@[asset].mid() is Some ==> price_or(
            store,
            asset,
            fallback,
        ) == store.books@[asset].mid()->0,
        store.books@.contains_key(asset) && store.books@[asset].spread() is Some ==> cost_of(
            store,
            asset,
            cost,
        ) == store.books@[asset].spread()->0,
        !store.books@.contains_key(asset) ==> price_or(store, asset, fallback) == fallback
            && cost_of(store, asset, cost) == cost,
{
}

/// A position that has been held for too long is due.
pub proof fn old_position_is_due(pos: Position, store: DataStore, now: u64)
    requires
        pos.open_time_ms + MAX_HOLD_MS < now,
    ensures
        due(pos, store, now),
{
}

/// The position that a signal opens is that of the signal from now on, and closing it takes
/// the signal's entry back.
pub proof fn opened_position_can_be_taken_back(
    signal: TradeSignal,
    oid: u64,
    sl_oid: Option<u64>,
    tp_oid: Option<u64>,
    now: u64,
    book: OrderBookState,
)
    ensures
        ({
            let pos = position_of(signal, oid, sl_oid, tp_oid, now);
            &&& takes_back(closing_of(pos, Some(&book)), entry_of(signal))
            &&& pos.asset == signal.asset
            &&& pos.open_time_ms == now
            &&& pos.stop_loss == signal.stop_loss
            &&& pos.take_profit == signal.take_profit
            &&& pos.oid == Some(oid)
            &&& pos.sl_oid == sl_oid
            &&& pos.tp_oid == tp_oid
        }),
{
    let pos = position_of(signal, oid, sl_oid, tp_oid, now);
    crate::execution::orders::closing_takes_the_entry_back(signal, pos, book);
}

/// The observation holds the two edges, the mean volatility, and leverage and number of
/// positions in fifths, each up to rounding.
pub proof fn observation_measures_the_market(
    btc: EnsembleOutput,
    eth: EnsembleOutput,
    all: Seq<EnsembleOutput>,
    portfolio: PortfolioState,
)
    requires
        0 < all.len() <= 0xffff_ffff,
        portfolio.positions@.len() <= 0xffff_ffff,
        Real::ratio(1, 10_000_000_000) <= portfolio.nav,
        portfolio.nav.finite(),
        portfolio.gross().finite(),
        sum_of_seq(vols_of(all)).finite(),
        forall|i: int|
            0 <= i < 7 ==> (#[trigger] observation_of(btc, eth, all, portfolio)[i]).finite(),
        (portfolio.gross() / portfolio.nav).finite(),
    ensures
        ({
            let o = observation_of(btc, eth, all, portfolio);
            &&& o.len() == 7
            &&& o[0] == btc.directional_edge
            &&& o[1] == eth.directional_edge
            &&& is_quotient(o[2], sum_of_seq(vols_of(all)), Real::count(all.len() as usize))
            &&& exists|leverage: Real| #[trigger]
                is_quotient(leverage, portfolio.gross(), portfolio.nav) && is_quotient(
                    o[4],
                    leverage,
                    Real::whole(5),
                )
            &&& o[5] == Real::whole(0)
            &&& is_quotient(
                o[6],
                Real::count(portfolio.positions@.len() as usize),
                Real::whole(5),
            )
        }),
{
    let o = observation_of(btc, eth, all, portfolio);
    let five = Real::whole(5);
    let w = pow2(1074) as int;
    lemma_pow2_pos(1074);
    lemma_whole(5);
    let n = all.len() as usize;
    lemma_count(n);
    lemma_whole(n as i64);
    let k = n as int;
    assert(k * w > 0) by (nonlinear_arith)
        requires
            k > 0,
            w > 0,
    ;
    assert(o[2].finite() && o[4].finite() && o[6].finite());
    lemma_operations_are_close(sum_of_seq(vols_of(all)), Real::count(n));
    lemma_small_ratio(10_000_000_000);
    lemma_order_key(Real::ratio(1, 10_000_000_000), portfolio.nav);
    let leverage = portfolio.gross() / portfolio.nav;
    lemma_operations_are_close(portfolio.gross(), portfolio.nav);
    lemma_operations_are_close(leverage, five);
    let m = portfolio.positions@.len() as usize;
    lemma_count(m);
    lemma_whole(m as i64);
    lemma_operations_are_close(Real::count(m), five);
    assert(is_quotient(leverage, portfolio.gross(), portfolio.nav));
}

} // verus!
