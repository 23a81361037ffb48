//! The orders that a signal and a position lead to.
//!
//! A signal becomes a limit entry, then a stop loss and a take profit that only
//! reduce the position. A position is closed by an immediate limit order.
use vstd::prelude::*;

use crate::assets::{index_of_symbol, pos_asset_index};
use crate::data::store::{top_price, OrderBookState};
use crate::num::Real;
use crate::risk::manager::{PortfolioState, Position};
use crate::signals::generator::{Direction, TradeSignal};

verus! {

/// Whether a trigger order limits a loss or takes a profit.
#[derive(Debug, Clone, Copy, PartialEq, Eq, Structural)]
pub enum TriggerSide {
    StopLoss,
    TakeProfit,
}

/// How an order is placed.
#[derive(Debug, Clone, Copy)]
pub enum Placement {
    /// A limit order that rests until it is cancelled.
    RestingLimit,
    /// A limit order that is filled at once or not at all.
    ImmediateLimit,
    /// An order that waits for a price.
    Trigger { is_market: bool, trigger_px: Real, side: TriggerSide },
}

/// An order for the exchange.
#[derive(Debug, Clone, Copy)]
pub struct OrderRequest {
    pub asset: usize,
    pub is_buy: bool,
    pub limit_px: Real,
    pub sz: Real,
    pub reduce_only: bool,
    pub placement: Placement,
}

/// What the exchange says of an order.
#[derive(Debug, Clone, Copy)]
pub enum OrderStatus {
    Resting { oid: u64 },
    Filled { oid: u64 },
    Other,
}

/// The number of contracts of a signal.
pub open spec fn contracts(size_usd: Real, leverage: Real, entry_price: Real) -> Real {
    size_usd * leverage / entry_price
}

/// The entry of a signal.
pub open spec fn entry_of(signal: TradeSignal) -> OrderRequest {
    OrderRequest {
        asset: signal.asset_index,
        is_buy: signal.direction == Direction::Long,
        limit_px: signal.entry_price,
        sz: contracts(signal.position_size_usd, signal.leverage, signal.entry_price),
        reduce_only: false,
        placement: Placement::RestingLimit,
    }
}

/// The entry of a signal: a resting limit order at the entry price.
pub fn entry_order(signal: &TradeSignal) -> (r: OrderRequest)
    ensures
        r == entry_of(*signal),
{
    OrderRequest {
        asset: signal.asset_index,
        is_buy: signal.direction.is_long(),
        limit_px: signal.entry_price,
        sz: signal.position_size_usd * signal.leverage / signal.entry_price,
        reduce_only: false,
        placement: Placement::RestingLimit,
    }
}

/// The stop loss of a signal.
pub open spec fn stop_of(signal: TradeSignal) -> OrderRequest {
    OrderRequest {
        asset: signal.asset_index,
        is_buy: signal.direction == Direction::Short,
        limit_px: signal.stop_loss,
        sz: contracts(signal.position_size_usd, signal.leverage, signal.entry_price),
        reduce_only: true,
        placement: Placement::Trigger {
            is_market: true,
            trigger_px: signal.stop_loss,
            side: TriggerSide::StopLoss,
        },
    }
}

/// The stop loss of a signal: a market order in the opposite direction once the
/// stop is reached.
pub fn stop_loss_order(signal: &TradeSignal) -> (r: OrderRequest)
    ensures
        r == stop_of(*signal),
{
    OrderRequest {
        asset: signal.asset_index,
        is_buy: !signal.direction.is_long(),
        limit_px: signal.stop_loss,
        sz: signal.position_size_usd * signal.leverage / signal.entry_price,
        reduce_only: true,
        placement: Placement::Trigger {
            is_market: true,
            trigger_px: signal.stop_loss,
            side: TriggerSide::StopLoss,
        },
    }
}

/// The take profit of a signal.
pub open spec fn target_of(signal: TradeSignal) -> OrderRequest {
    OrderRequest {
        asset: signal.asset_index,
        is_buy: signal.direction == Direction::Short,
        limit_px: signal.take_profit,
        sz: contracts(signal.position_size_usd, signal.leverage, signal.entry_price),
        reduce_only: true,
        placement: Placement::Trigger {
            is_market: false,
            trigger_px: signal.take_profit,
            side: TriggerSide::TakeProfit,
        },
    }
}

/// The take profit of a signal: a limit order in the opposite direction once the
/// target is reached.
pub fn take_profit_order(signal: &TradeSignal) -> (r: OrderRequest)
    ensures
        r == target_of(*signal),
{
    OrderRequest {
        asset: signal.asset_index,
        is_buy: !signal.direction.is_long(),
        limit_px: signal.take_profit,
        sz: signal.position_size_usd * signal.leverage / signal.entry_price,
        reduce_only: true,
        placement: Placement::Trigger {
            is_market: false,
            trigger_px: signal.take_profit,
            side: TriggerSide::TakeProfit,
        },
    }
}

/// The price at which a position is closed: the best bid for the sale of a long and
/// the best ask for the purchase of a short position; one percent above the entry
/// without one.
pub open spec fn closing_price(pos: Position, book: Option<&OrderBookState>) -> Real {
    let best = match book {
        Some(b) => match pos.direction {
            Direction::Long => top_price(b.bids@),
            Direction::Short => top_price(b.asks@),
        },
        None => None,
    };
    match best {
        Some(px) => px,
        None => pos.entry_price * Real::ratio(101, 100),
    }
}

/// The order that closes a position.
pub open spec fn closing_of(pos: Position, book: Option<&OrderBookState>) -> OrderRequest {
    OrderRequest {
        asset: index_of_symbol(pos.asset@),
        is_buy: pos.direction == Direction::Short,
        limit_px: closing_price(pos, book),
        sz: contracts(pos.size_usd, pos.leverage, pos.entry_price),
        reduce_only: true,
        placement: Placement::ImmediateLimit,
    }
}

/// The order that closes a position.
pub fn close_order(pos: &Position, book: Option<&OrderBookState>) -> (r: OrderRequest)
    ensures
        r == closing_of(*pos, book),
{
    let best = match book {
        Some(b) => {
            let level = match pos.direction {
                Direction::Long => b.best_bid(),
                Direction::Short => b.best_ask(),
            };
            match level {
                Some(l) => l.px,
                None => None,
            }
        },
        None => None,
    };
    let close_px = match best {
        Some(px) => px,
        None => pos.entry_price * Real::ratio(101, 100),
    };
    OrderRequest {
        asset: pos_asset_index(pos.asset.as_str()),
        is_buy: !pos.direction.is_long(),
        limit_px: close_px,
        sz: pos.size_usd * pos.leverage / pos.entry_price,
        reduce_only: true,
        placement: Placement::ImmediateLimit,
    }
}

/// The identifier of the first order that rests or is filled.
pub open spec fn first_oid(statuses: Seq<OrderStatus>) -> Option<u64>
    decreases statuses.len(),
{
    if statuses.len() == 0 {
        None
    } else {
        match statuses[0] {
            OrderStatus::Resting { oid } => Some(oid),
            OrderStatus::Filled { oid } => Some(oid),
            OrderStatus::Other => first_oid(statuses.drop_first()),
        }
    }
}

/// The identifier of the first order that rests or is filled.
pub fn extract_oid(statuses: &[OrderStatus]) -> (r: Option<u64>)
    ensures
        r == first_oid(statuses@),
{
    let mut i: usize = 0;
    assert(statuses@.skip(0) =~= statuses@);
    while i < statuses.len()
        invariant
            i <= statuses@.len(),
            first_oid(statuses@) == first_oid(statuses@.skip(i as int)),
        decreases statuses@.len() - i,
    {
        match statuses[i] {
            OrderStatus::Resting { oid } => {
                return Some(oid);
            },
            OrderStatus::Filled { oid } => {
                return Some(oid);
            },
            OrderStatus::Other => {},
        }
        assert(statuses@.skip(i as int).drop_first() =~= statuses@.skip(i + 1));
        i += 1;
    }
    None
}

/// Takes over the account value, where the exchange gives one.
pub fn refresh_nav(portfolio: &mut PortfolioState, account_value: Option<Real>)
    ensures
        ({
            let v = match account_value {
                Some(x) => x,
                None => old(portfolio).nav,
            };
            &&& final(portfolio).nav == v
            &&& final(portfolio).peak_nav == if v > old(portfolio).peak_nav {
                v
            } else {
                old(portfolio).peak_nav
            }
        }),
        final(portfolio).positions == old(portfolio).positions,
        final(portfolio).total_realised_pnl == old(portfolio).total_realised_pnl,
{
    let v = match account_value {
        Some(x) => x,
        None => portfolio.nav,
    };
    portfolio.update_nav(v);
}

} // verus!
