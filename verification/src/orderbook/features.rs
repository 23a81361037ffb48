//! Microstructure features of the limit order book, normalised by mid price or
//! volume so that they compare across assets.
use vstd::prelude::*;

use crate::data::store::{or_zero, top_price, top_values, BookLevel, OrderBookState};
use crate::num::series::sum_of_seq;
use crate::num::Real;

verus! {

/// Order book features of one asset at one time.
#[derive(Debug, Clone, Copy)]
pub struct OrderBookFeatures {
    pub mid_price: Real,
    /// Spread in hundredths of a percent.
    pub spread_bps: Real,
    /// Bid depth less ask depth over total depth.
    pub depth_ofi: Real,
    /// Bid depth of five levels.
    pub bid_depth_5: Real,
    /// Ask depth of five levels.
    pub ask_depth_5: Real,
    /// Bid depth over ask depth.
    pub depth_ratio: Real,
    /// Impact of trading one percent of the daily volume.
    pub price_impact_1pct: Real,
    /// Mid price weighted by the opposite sizes.
    pub micro_price: Real,
}

/// The features of a book without a mid price.
pub open spec fn no_features() -> OrderBookFeatures {
    let o = Real::whole(0);
    OrderBookFeatures {
        mid_price: o,
        spread_bps: o,
        depth_ofi: o,
        bid_depth_5: o,
        ask_depth_5: o,
        depth_ratio: o,
        price_impact_1pct: o,
        micro_price: o,
    }
}

impl Default for OrderBookFeatures {
    fn default() -> (r: Self)
        ensures
            r == no_features(),
    {
        let o = Real::whole(0);
        OrderBookFeatures {
            mid_price: o,
            spread_bps: o,
            depth_ofi: o,
            bid_depth_5: o,
            ask_depth_5: o,
            depth_ratio: o,
            price_impact_1pct: o,
            micro_price: o,
        }
    }
}

/// The mid price weighted by the opposite sizes; the plain one without sizes.
pub open spec fn micro_price_of(bid: BookLevel, ask: BookLevel, mid: Real) -> Real {
    let total = or_zero(bid.sz) + or_zero(ask.sz);
    if total > Real::whole(0) {
        (or_zero(bid.px) * or_zero(ask.sz) + or_zero(ask.px) * or_zero(bid.sz)) / total
    } else {
        mid
    }
}

/// The features of a book.
pub open spec fn book_features(book: OrderBookState, adv_24h_usd: Real) -> OrderBookFeatures {
    let mid = or_zero(book.mid());
    let bid5 = sum_of_seq(top_values(book.bids@, 5));
    let ask5 = sum_of_seq(top_values(book.asks@, 5));
    let total = bid5 + ask5;
    if mid.same_as(Real::whole(0)) {
        no_features()
    } else {
        OrderBookFeatures {
            mid_price: mid,
            spread_bps: match (top_price(book.bids@), top_price(book.asks@)) {
                (Some(bid), Some(ask)) => (ask - bid) / ((bid + ask) / Real::whole(2))
                    * Real::whole(10_000),
                _ => Real::whole(0),
            },
            depth_ofi: if total > Real::whole(0) {
                (bid5 - ask5) / total
            } else {
                Real::whole(0)
            },
            bid_depth_5: bid5,
            ask_depth_5: ask5,
            depth_ratio: if ask5 > Real::whole(0) {
                bid5 / ask5
            } else {
                Real::whole(1)
            },
            price_impact_1pct: book.impact(adv_24h_usd * Real::ratio(1, 100), true).abs(),
            micro_price: if book.bids@.len() > 0 && book.asks@.len() > 0 {
                micro_price_of(book.bids@[0], book.asks@[0], mid)
            } else {
                mid
            },
        }
    }
}

impl OrderBookFeatures {
    /// The features of a book, for a given daily volume.
    pub fn compute(book: &OrderBookState, adv_24h_usd: Real) -> (r: Self)
        ensures
            r == book_features(*book, adv_24h_usd),
    {
        let mid = or_zero(book.mid_price());
        if mid == Real::whole(0) {
            return Self::default();
        }
        let spread_bps = or_zero(book.spread_bps());
        let bid5 = book.bid_value(5);
        let ask5 = book.ask_value(5);
        let total = bid5 + ask5;
        let depth_ofi = if total > Real::whole(0) {
            (bid5 - ask5) / total
        } else {
            Real::whole(0)
        };
        let depth_ratio = if ask5 > Real::whole(0) {
            bid5 / ask5
        } else {
            Real::whole(1)
        };
        let micro_price = match (book.best_bid(), book.best_ask()) {
            (Some(bid), Some(ask)) => {
                let total_sz = or_zero(bid.sz) + or_zero(ask.sz);
                if total_sz > Real::whole(0) {
                    (or_zero(bid.px) * or_zero(ask.sz) + or_zero(ask.px) * or_zero(bid.sz))
                        / total_sz
                } else {
                    mid
                }
            },
            _ => mid,
        };
        let price_impact_1pct = book.price_impact(adv_24h_usd * Real::ratio(1, 100), true).abs();
        Self {
            mid_price: mid,
            spread_bps,
            depth_ofi,
            bid_depth_5: bid5,
            ask_depth_5: ask5,
            depth_ratio,
            price_impact_1pct,
            micro_price,
        }
    }

    /// The features as one vector; the micro price as a distance from the mid
    /// price.
    pub open spec fn vector(&self) -> Seq<Real> {
        let skew = (self.micro_price - self.mid_price) / self.mid_price.max(
            Real::ratio(1, 10_000_000_000),
        );
        seq![self.spread_bps, self.depth_ofi, self.depth_ratio, self.price_impact_1pct, skew]
    }

    /// The features as one vector.
    pub fn to_vec(&self) -> (r: Vec<Real>)
        ensures
            r@ == self.vector(),
    {
        let skew = (self.micro_price - self.mid_price) / self.mid_price.max(
            Real::ratio(1, 10_000_000_000),
        );
        let v = vec![
            self.spread_bps,
            self.depth_ofi,
            self.depth_ratio,
            self.price_impact_1pct,
            skew,
        ];
        assert(v@ =~= self.vector());
        v
    }
}

} // verus!
