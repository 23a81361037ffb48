//! How the orders of a signal and of its position belong together.
use vstd::arithmetic::power2::pow2;
use vstd::prelude::*;

use crate::data::store::{top_price, OrderBookState};
use crate::execution::executor::{
    closing_of, entry_of, first_oid, stop_of, target_of, OrderRequest, OrderStatus, Placement,
    TriggerSide,
};
use crate::num::order::lemma_whole;
use crate::num::rules::{is_quotient, lemma_operations_are_close};
use crate::num::Real;
use crate::risk::manager::Position;
use crate::signals::generator::{Direction, TradeSignal};

verus! {

/// The order takes back what another one has bought or sold: the other side of the same
/// contracts, and nothing beyond them.
pub open spec fn takes_back(exit: OrderRequest, entry: OrderRequest) -> bool {
    &&& exit.is_buy == !entry.is_buy
    &&& exit.sz == entry.sz
    &&& exit.reduce_only
}

/// A long signal buys at its entry price and a short one sells; its stop and its target
/// take that back, the stop at the market once the stop price is reached, the target at
/// the target price.
pub proof fn exits_take_the_entry_back(signal: TradeSignal)
    ensures
        entry_of(signal).is_buy <==> signal.direction == Direction::Long,
        entry_of(signal).limit_px == signal.entry_price,
        entry_of(signal).asset == signal.asset_index,
        !entry_of(signal).reduce_only,
        entry_of(signal).placement is RestingLimit,
        takes_back(stop_of(signal), entry_of(signal)),
        takes_back(target_of(signal), entry_of(signal)),
        stop_of(signal).asset == signal.asset_index,
        target_of(signal).asset == signal.asset_index,
        stop_of(signal).placement matches Placement::Trigger { is_market, trigger_px, side }
            && is_market && trigger_px == signal.stop_loss && side == TriggerSide::StopLoss,
        target_of(signal).placement matches Placement::Trigger { is_market, trigger_px, side }
            && !is_market && trigger_px == signal.take_profit && side == TriggerSide::TakeProfit,
        target_of(signal).limit_px == signal.take_profit,
{
}

/// The contracts of an entry are worth its size times its leverage at the entry price,
/// up to rounding.
pub proof fn contracts_are_worth_the_notional(signal: TradeSignal)
    requires
        Real::whole(0) < signal.entry_price,
        signal.entry_price.finite(),
        (signal.position_size_usd * signal.leverage).finite(),
        entry_of(signal).sz.finite(),
    ensures
        is_quotient(
            entry_of(signal).sz,
            signal.position_size_usd * signal.leverage,
            signal.entry_price,
        ),
{
    lemma_whole(0);
    assert(0 * pow2(1074) == 0);
    lemma_operations_are_close(signal.position_size_usd * signal.leverage, signal.entry_price);
}

/// The position that a signal opens is closed at once by an order that takes its entry
/// back: a long one sold at the best bid, a short one bought at the best ask.
pub proof fn closing_takes_the_entry_back(
    signal: TradeSignal,
    pos: Position,
    book: OrderBookState,
)
    requires
        pos.direction == signal.direction,
        pos.size_usd == signal.position_size_usd,
        pos.leverage == signal.leverage,
        pos.entry_price == signal.entry_price,
    ensures
        takes_back(closing_of(pos, Some(&book)), entry_of(signal)),
        closing_of(pos, Some(&book)).placement is ImmediateLimit,
        pos.direction == Direction::Long ==> (top_price(book.bids@) matches Some(px)
            ==> closing_of(pos, Some(&book)).limit_px == px),
        pos.direction == Direction::Short ==> (top_price(book.asks@) matches Some(px)
            ==> closing_of(pos, Some(&book)).limit_px == px),
{
}

/// The identifier is that of an order that rests or is filled, and no earlier one does;
/// there is none only where no order does.
pub proof fn identifier_is_the_first(statuses: Seq<OrderStatus>)
    ensures
        first_oid(statuses) is None <==> forall|i: int|
            0 <= i < statuses.len() ==> (#[trigger] statuses[i]) is Other,
        first_oid(statuses) matches Some(oid) ==> exists|i: int|
            0 <= i < statuses.len() && !((#[trigger] statuses[i]) is Other) && (statuses[i]
                == OrderStatus::Resting { oid } || statuses[i] == OrderStatus::Filled { oid })
                && forall|j: int| 0 <= j < i ==> (#[trigger] statuses[j]) is Other,
    decreases statuses.len(),
{
    if statuses.len() > 0 && statuses[0] is Other {
        let rest = statuses.drop_first();
        identifier_is_the_first(rest);
        assert forall|i: int| 0 < i < statuses.len() implies statuses[i] == rest[i - 1] by {}
        if first_oid(statuses) is None {
            assert forall|i: int| 0 <= i < statuses.len() implies (#[trigger] statuses[i]) is Other by {
                if i > 0 {
                    assert(rest[i - 1] is Other);
                }
            }
        } else {
            let oid = first_oid(statuses)->0;
            let i = choose|i: int|
                0 <= i < rest.len() && !((#[trigger] rest[i]) is Other) && (rest[i]
                    == OrderStatus::Resting { oid } || rest[i] == OrderStatus::Filled { oid })
                    && forall|j: int| 0 <= j < i ==> (#[trigger] rest[j]) is Other;
            assert(statuses[i + 1] == rest[i]);
            assert forall|j: int| 0 <= j < i + 1 implies (#[trigger] statuses[j]) is Other by {
                if j > 0 {
                    assert(rest[j - 1] is Other);
                }
            }
        }
    } else if statuses.len() > 0 {
        assert(!(statuses[0] is Other));
    }
}

} // verus!
