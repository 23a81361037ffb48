//! Positions: from orders to bookkeeping, and when to close.
use vstd::prelude::*;

use crate::assets::{index_of_symbol, pos_asset_index};
use crate::data::store::DataStore;
use crate::num::Real;
use crate::optimizer::types::{ComboOrder, OrderLeg};
use crate::risk::limits::RiskLimits;
use crate::risk::manager::{
    close_reason, without_position, PortfolioState, Position, RiskManager,
};
use crate::signals::generator::TradeSignal;

verus! {

/// The longest holding period in milliseconds: 48 hours.
pub const MAX_HOLD_MS: u64 = 172_800_000;

/// The position that a filled signal opens.
pub open spec fn position_of(
    signal: TradeSignal,
    oid: u64,
    sl_oid: Option<u64>,
    tp_oid: Option<u64>,
    now_ms: u64,
) -> Position {
    Position {
        asset: signal.asset,
        direction: signal.direction,
        entry_price: signal.entry_price,
        size_usd: signal.position_size_usd,
        leverage: signal.leverage,
        stop_loss: signal.stop_loss,
        take_profit: signal.take_profit,
        open_time_ms: now_ms,
        oid: Some(oid),
        sl_oid,
        tp_oid,
    }
}

/// The position that an executed signal opens.
pub fn opened_position(
    signal: &TradeSignal,
    oid: u64,
    sl_oid: Option<u64>,
    tp_oid: Option<u64>,
    now_ms: u64,
) -> (r: Position)
    ensures
        r == position_of(*signal, oid, sl_oid, tp_oid, now_ms),
{
    Position {
        asset: signal.asset.clone(),
        direction: signal.direction,
        entry_price: signal.entry_price,
        size_usd: signal.position_size_usd,
        leverage: signal.leverage,
        stop_loss: signal.stop_loss,
        take_profit: signal.take_profit,
        open_time_ms: now_ms,
        oid: Some(oid),
        sl_oid,
        tp_oid,
    }
}

/// The mid price of an asset, or a price to fall back to.
pub open spec fn price_or(store: DataStore, asset: Seq<char>, fallback: Real) -> Real {
    if store.books@.contains_key(asset) {
        match store.books@[asset].mid() {
            Some(px) => px,
            None => fallback,
        }
    } else {
        fallback
    }
}

/// The mid price of an asset, or a price to fall back to.
pub fn current_price(store: &DataStore, asset: &str, fallback: Real) -> (r: Real)
    ensures
        r == price_or(*store, asset@, fallback),
{
    match store.books.get(asset) {
        Some(book) => match book.mid_price() {
            Some(px) => px,
            None => fallback,
        },
        None => fallback,
    }
}

/// The position is to be closed now.
pub open spec fn due(pos: Position, store: DataStore, now_ms: u64) -> bool {
    close_reason(
        pos,
        now_ms,
        price_or(store, pos.asset@, pos.entry_price),
        MAX_HOLD_MS,
    ) is Some
}

/// The places of the first `n` positions that are to be closed now.
pub open spec fn due_places(
    positions: Seq<Position>,
    store: DataStore,
    now_ms: u64,
    n: nat,
) -> Seq<int>
    decreases n,
{
    if n == 0 {
        Seq::empty()
    } else {
        let before = due_places(positions, store, now_ms, (n - 1) as nat);
        if due(positions[n - 1], store, now_ms) {
            before.push(n - 1)
        } else {
            before
        }
    }
}

/// The entry names the position's asset and the reason to close it.
pub open spec fn is_due(
    entry: (String, &'static str),
    pos: Position,
    store: DataStore,
    now_ms: u64,
) -> bool {
    &&& entry.0 == pos.asset
    &&& close_reason(
        pos,
        now_ms,
        price_or(store, pos.asset@, pos.entry_price),
        MAX_HOLD_MS,
    ) == Some(entry.1@)
}

/// The assets whose positions are to be closed now, and why.
pub fn positions_to_close(
    portfolio: &PortfolioState,
    store: &DataStore,
    limits: &RiskLimits,
    now_ms: u64,
) -> (r: Vec<(String, &'static str)>)
    ensures
        ({
            let places = due_places(
                portfolio.positions@,
                *store,
                now_ms,
                portfolio.positions@.len(),
            );
            &&& r@.len() == places.len()
            &&& forall|k: int|
                0 <= k < r@.len() ==> is_due(
                    #[trigger] r@[k],
                    portfolio.positions@[places[k]],
                    *store,
                    now_ms,
                )
        }),
{
    let risk = RiskManager::new(limits);
    let mut out: Vec<(String, &'static str)> = Vec::new();
    let mut i: usize = 0;
    while i < portfolio.positions.len()
        invariant
            i <= portfolio.positions@.len(),
            out@.len() == due_places(portfolio.positions@, *store, now_ms, i as nat).len(),
            forall|k: int|
                0 <= k < out@.len() ==> is_due(
                    #[trigger] out@[k],
                    portfolio.positions@[due_places(
                        portfolio.positions@,
                        *store,
                        now_ms,
                        i as nat,
                    )[k]],
                    *store,
                    now_ms,
                ),
        decreases portfolio.positions@.len() - i,
    {
        let pos = &portfolio.positions[i];
        let px = current_price(store, pos.asset.as_str(), pos.entry_price);
        if let Some(reason) = risk.should_close(pos, now_ms, px, MAX_HOLD_MS) {
            out.push((pos.asset.clone(), reason));
        }
        i += 1;
    }
    out
}

/// Nothing is closed that is not due, and all that is due is.
pub proof fn due_positions_are_listed(
    positions: Seq<Position>,
    store: DataStore,
    now_ms: u64,
    n: nat,
    i: int,
)
    requires
        n <= positions.len(),
        0 <= i < n,
    ensures
        due_places(positions, store, now_ms, n).contains(i) <==> due(positions[i], store, now_ms),
    decreases n,
{
    let before = due_places(positions, store, now_ms, (n - 1) as nat);
    let all = due_places(positions, store, now_ms, n);
    lemma_due_below(positions, store, now_ms, (n - 1) as nat);
    if i < n - 1 {
        due_positions_are_listed(positions, store, now_ms, (n - 1) as nat, i);
        if before.contains(i) {
            let k = choose|k: int| 0 <= k < before.len() && before[k] == i;
            assert(all[k] == i);
        }
        if all.contains(i) {
            let k = choose|k: int| 0 <= k < all.len() && all[k] == i;
            assert(k < before.len());
            assert(before[k] == i);
        }
    } else {
        if due(positions[i], store, now_ms) {
            assert(all[all.len() - 1] == i);
        } else if all.contains(i) {
            let k = choose|k: int| 0 <= k < all.len() && all[k] == i;
            assert(before[k] == i);
        }
    }
}

proof fn lemma_due_below(positions: Seq<Position>, store: DataStore, now_ms: u64, n: nat)
    ensures
        forall|k: int|
            0 <= k < due_places(positions, store, now_ms, n).len() ==> 0 <= (#[trigger] due_places(
                positions,
                store,
                now_ms,
                n,
            )[k]) < n,
    decreases n,
{
    if n > 0 {
        lemma_due_below(positions, store, now_ms, (n - 1) as nat);
        let before = due_places(positions, store, now_ms, (n - 1) as nat);
        let all = due_places(positions, store, now_ms, n);
        assert forall|k: int| 0 <= k < all.len() implies 0 <= #[trigger] all[k] < n by {
            if k < before.len() {
                assert(all[k] == before[k]);
            }
        }
    }
}

/// Takes the position in an asset out of the portfolio if its closing order went
/// through; otherwise it stays.
pub fn settle_close(portfolio: &mut PortfolioState, asset: &str, closed: bool)
    ensures
        !closed ==> *final(portfolio) == *old(portfolio),
        closed ==> final(portfolio).positions@ == without_position(
            old(portfolio).positions@,
            asset@,
        ),
        closed && old(portfolio).wf() ==> final(portfolio).position_in(asset@) is None,
        old(portfolio).wf() ==> final(portfolio).wf(),
        final(portfolio).nav == old(portfolio).nav,
        final(portfolio).peak_nav == old(portfolio).peak_nav,
        final(portfolio).total_realised_pnl == old(portfolio).total_realised_pnl,
{
    if closed {
        let _ = portfolio.close_position(asset);
    }
}

/// The signal of a leg of a joint order, for risk checks and execution. The
/// probabilities are those of the asset's ensemble.
pub fn leg_to_signal(
    leg: &OrderLeg,
    combo: &ComboOrder,
    p_up: Real,
    p_down: Real,
    predicted_vol: Real,
) -> (r: TradeSignal)
    ensures
        r.signal_id@ == combo.combo_id@ + "/"@ + leg.asset@,
        r.generated_at_ms == combo.generated_at_ms,
        r.asset@ == leg.asset@,
        r.asset_index == index_of_symbol(leg.asset@),
        r.direction == leg.direction,
        r.entry_price == leg.entry_price,
        r.stop_loss == leg.stop_loss,
        r.take_profit == leg.take_profit,
        r.leverage == leg.leverage,
        r.position_size_usd == leg.position_size_usd,
        r.expected_value == leg.expected_log_growth,
        r.signal_confidence == leg.confidence,
        r.predicted_vol_4h == predicted_vol,
        r.directional_edge == p_up - p_down,
        r.regime_label@ == leg.regime_label@,
        r.ensemble_p_up == p_up,
        r.ensemble_p_down == p_down,
        r.ensemble_confidence == leg.confidence,
{
    let mut id = combo.combo_id.clone();
    id.append("/");
    id.append(leg.asset.as_str());
    TradeSignal {
        signal_id: id,
        generated_at_ms: combo.generated_at_ms,
        asset: leg.asset.clone(),
        asset_index: pos_asset_index(leg.asset.as_str()),
        direction: leg.direction,
        entry_price: leg.entry_price,
        stop_loss: leg.stop_loss,
        take_profit: leg.take_profit,
        leverage: leg.leverage,
        position_size_usd: leg.position_size_usd,
        expected_value: leg.expected_log_growth,
        signal_confidence: leg.confidence,
        predicted_vol_4h: predicted_vol,
        directional_edge: p_up - p_down,
        regime_label: leg.regime_label.clone(),
        ensemble_p_up: p_up,
        ensemble_p_down: p_down,
        ensemble_confidence: leg.confidence,
    }
}

} // verus!
