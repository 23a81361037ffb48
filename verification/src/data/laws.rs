//! What the prices, the volumes and the histories of an asset mean.
use vstd::arithmetic::power2::{lemma_pow2_pos, pow2};
use vstd::prelude::*;

use crate::data::store::{
    bar_of, or_zero, rolled, since, sizes_since, top_price, walk_book, window_start, BookLevel,
    Candle, OrderBookState, Side, Trade, TradeHistory, TradeTimes,
};
use crate::num::drift::{lemma_add_close, lemma_mul_commutes, size, PARTS};
use crate::num::elementary::{ln_of, Oracle};
use crate::num::model::BINADE;
use crate::num::order::{lemma_add_grows, lemma_div_monotone, lemma_whole};
use crate::num::rules::{
    is_quotient, lemma_between, lemma_difference_sign, lemma_operations_are_close,
    lemma_over_itself, lemma_plus_zero, lemma_quotient_near, lemma_scaled_quotient, lemma_sum_over,
    lemma_zero_over, lemma_zero_value,
};
use crate::num::series::sum_of_seq;
use crate::num::Real;

verus! {

/// Twice the mid price is the sum of the best prices, up to rounding.
pub proof fn mid_is_halfway(book: OrderBookState, bid: Real, ask: Real)
    requires
        top_price(book.bids@) == Some(bid),
        top_price(book.asks@) == Some(ask),
        (bid + ask).finite(),
        ((bid + ask) / Real::whole(2)).finite(),
    ensures
        book.mid() is Some,
        size(2 * book.mid()->0.value() - (bid.value() + ask.value())) * PARTS <= 3 * size(
            bid.value() + ask.value(),
        ) + 2 * BINADE,
{
    let mid = book.mid()->0;
    let w = pow2(1074) as int;
    lemma_pow2_pos(1074);
    lemma_whole(2);
    lemma_sum_over(bid, ask, Real::whole(2));
    let (m, n) = (mid.value(), bid.value() + ask.value());
    let e = 2 * m - n;
    assert(m * (2 * w) - n * w == e * w) by (nonlinear_arith)
        requires
            e == 2 * m - n,
    ;
    assert(size(e * w) == size(e) * w) by (nonlinear_arith)
        requires
            w > 0,
    ;
    assert(size(e) * PARTS <= 3 * size(n) + 2 * BINADE) by (nonlinear_arith)
        requires
            size(e) * w * PARTS <= 3 * (size(n) * w) + (2 * w) * BINADE,
            w > 0,
    ;
}

/// The spread times the mid price is ten thousand times the distance of the best
/// prices, up to rounding.
pub proof fn spread_is_a_share_of_the_mid(book: OrderBookState, bid: Real, ask: Real)
    requires
        top_price(book.bids@) == Some(bid),
        top_price(book.asks@) == Some(ask),
        book.mid()->0.finite(),
        book.mid()->0.value() != 0,
        (ask - bid).finite(),
        ((ask - bid) / book.mid()->0).finite(),
        book.spread()->0.finite(),
    ensures
        book.spread() is Some,
        ({
            let (r, m, d, w) = (
                book.spread()->0.value(),
                book.mid()->0.value(),
                (ask - bid).value(),
                pow2(1074) as int,
            );
            size(r * m - 10_000 * w * d) * w * PARTS <= 3 * (size(10_000 * w * d) * w) + (2 * size(
                10_000 * w,
            ) + w) * size(m) * BINADE
        }),
{
    lemma_whole(10_000);
    let mid = book.mid()->0;
    lemma_mul_commutes((ask - bid) / mid, Real::whole(10_000));
    lemma_scaled_quotient(Real::whole(10_000), ask - bid, mid);
}

/// A book whose best prices coincide has no spread; one whose best ask is above its best
/// bid has none that is negative.
pub proof fn spread_has_the_sign_of_the_distance(book: OrderBookState, bid: Real, ask: Real)
    requires
        top_price(book.bids@) == Some(bid),
        top_price(book.asks@) == Some(ask),
        bid.finite(),
        ask.finite(),
        Real::whole(0) < book.mid()->0,
        book.mid()->0.finite(),
        ((ask - bid) / book.mid()->0).finite(),
        book.spread()->0.finite(),
    ensures
        bid.value() <= ask.value() ==> 0 <= book.spread()->0.value(),
        bid.value() >= ask.value() ==> 0 >= book.spread()->0.value(),
{
    lemma_whole(0);
    lemma_whole(10_000);
    lemma_pow2_pos(1074);
    assert(0 * pow2(1074) == 0);
    let (mid, d) = (book.mid()->0, ask - bid);
    lemma_difference_sign(ask, bid);
    lemma_zero_value(mid);
    if bid.value() == ask.value() || d.finite() {
        assert(d.finite()) by {
            reveal(Real::spec_add);
            crate::num::magnitude::lemma_round_zero(1);
        }
        lemma_quotient_near(d, mid);
        crate::num::rules::lemma_product_near(d / mid, Real::whole(10_000));
        let (v, m, q, k) = (
            d.value(),
            mid.value(),
            (d / mid).value(),
            Real::whole(10_000).value(),
        );
        assert(v >= 0 ==> v * m >= 0) by (nonlinear_arith)
            requires
                m > 0,
        ;
        assert(v <= 0 ==> v * m <= 0) by (nonlinear_arith)
            requires
                m > 0,
        ;
        assert(q >= 0 ==> q * k >= 0) by (nonlinear_arith)
            requires
                k > 0,
        ;
        assert(q <= 0 ==> q * k <= 0) by (nonlinear_arith)
            requires
                k > 0,
        ;
    } else {
        assert(false) by {
            reveal(Real::spec_div);
        }
    }
}

/// A book whose side is empty is depleted by any order.
pub proof fn empty_side_is_depleted(book: OrderBookState, notional: Real, is_buy: bool)
    requires
        Real::whole(0) < notional,
        book.mid() matches Some(mid) && !mid.same_as(Real::whole(0)),
        is_buy ==> book.asks@.len() == 0,
        !is_buy ==> book.bids@.len() == 0,
    ensures
        book.impact(notional, is_buy) == Real::whole(1),
{
}

/// The quantity and all sizes of one side of a book.
pub open spec fn taken(levels: Seq<BookLevel>, quantity: Real) -> Real
    decreases levels.len(),
{
    if levels.len() == 0 {
        quantity
    } else {
        taken(levels.drop_first(), quantity + or_zero(levels[0].sz))
    }
}

/// An order that a side cannot fill has taken all of its sizes.
pub proof fn depleted_side_is_all_taken(levels: Seq<BookLevel>, notional: Real, quantity: Real)
    requires
        Real::whole(0) < walk_book(levels, notional, quantity).0,
    ensures
        walk_book(levels, notional, quantity).1 == taken(levels, quantity),
    decreases levels.len(),
{
    lemma_whole(0);
    assert(0 * pow2(1074) == 0);
    if levels.len() > 0 {
        let (px, sz) = (or_zero(levels[0].px), or_zero(levels[0].sz));
        if notional <= px * sz {
        } else {
            depleted_side_is_all_taken(levels.drop_first(), notional - px * sz, quantity + sz);
        }
    }
}

/// The side of the book that an order takes: the asks where it buys, the bids where it
/// sells.
pub open spec fn taken_side(book: OrderBookState, is_buy: bool) -> Seq<BookLevel> {
    if is_buy {
        book.asks@
    } else {
        book.bids@
    }
}

/// An order that the best level of its side can fill moves the price from the mid price
/// to that level: the impact times the mid price is their distance, up to rounding.
pub proof fn small_order_pays_the_best_price(
    book: OrderBookState,
    notional: Real,
    is_buy: bool,
    mid: Real,
    px: Real,
    sz: Real,
)
    requires
        book.mid() == Some(mid),
        Real::whole(0) < mid,
        mid.finite(),
        taken_side(book, is_buy).len() > 0,
        taken_side(book, is_buy)[0] == (BookLevel { px: Some(px), sz: Some(sz) }),
        Real::whole(0) < px,
        px.finite(),
        Real::whole(0) < notional,
        notional.finite(),
        notional <= px * sz,
        (notional / px).finite(),
        (notional / px).value() >= BINADE,
        (notional / (notional / px)).finite(),
        (notional / (notional / px) - mid).finite(),
        book.impact(notional, is_buy).finite(),
    ensures
        ({
            let (r, m, p, w) = (
                book.impact(notional, is_buy).value(),
                mid.value(),
                px.value(),
                pow2(1074) as int,
            );
            size(r * m - (p - m) * w) * PARTS <= 64 * ((p + m + BINADE) * w)
        }),
{
    let zero = Real::whole(0);
    let w = pow2(1074) as int;
    lemma_whole(0);
    lemma_pow2_pos(1074);
    assert(0 * pow2(1074) == 0);
    let q0 = notional / px;
    lemma_zero_value(q0);
    lemma_zero_value(zero);
    lemma_plus_zero(q0, zero);
    let q = zero + q0;
    assert(q == q0);
    let avg = notional / q;
    let d = avg - mid;
    let r = d / mid;
    assert(walk_book(taken_side(book, is_buy), notional, zero) == (zero, q));
    assert(!mid.same_as(zero));
    assert(book.impact(notional, is_buy) == r);
    lemma_quotient_near(notional, px);
    lemma_quotient_near(notional, q);
    crate::num::rules::lemma_finite_terms(avg, mid.neg());
    lemma_zero_value(mid);
    lemma_add_close(avg, mid.neg());
    lemma_quotient_near(d, mid);
    let (n, p, m, qv, av, dv, rv) = (
        notional.value(),
        px.value(),
        mid.value(),
        q.value(),
        avg.value(),
        d.value(),
        r.value(),
    );
    assert(n * qv >= 0) by (nonlinear_arith)
        requires
            n > 0,
            qv > 0,
    ;
    lemma_average(n, p, qv, av, w);
    vstd::arithmetic::power2::lemma2_to64_rest();
    vstd::arithmetic::power2::lemma_pow2_strictly_increases(53, 1074);
    lemma_moved_from(p, m, av, dv, rv, w);
}

/// An average price that is near to the price of the only level.
proof fn lemma_average(n: int, p: int, q: int, a: int, w: int)
    requires
        n > 0,
        p > 0,
        q >= BINADE,
        a >= 0,
        w > 0,
        size(q * p - n * w) * PARTS <= n * w + p * BINADE,
        size(a * q - n * w) * PARTS <= n * w + q * BINADE,
    ensures
        size(a - p) * PARTS <= 8 * p + 2 * BINADE,
{
    let nw = n * w;
    let (e1, e2) = (a * q - nw, q * p - nw);
    let qp = q * p;
    assert(p * BINADE <= qp) by (nonlinear_arith)
        requires
            q >= BINADE,
            p > 0,
            qp == q * p,
    ;
    assert(nw > 0) by (nonlinear_arith)
        requires
            n > 0,
            w > 0,
            nw == n * w,
    ;
    assert(size(e2) * PARTS <= nw + qp);
    assert(nw <= 2 * qp) by {
        if nw > 2 * qp {
            assert(size(e2) == nw - qp);
            assert(size(e2) * PARTS >= 4 * size(e2)) by (nonlinear_arith)
                requires
                    size(e2) >= 0,
            ;
        }
    }
    let g = a - p;
    assert(g * q == e1 - e2) by (nonlinear_arith)
        requires
            g == a - p,
            e1 == a * q - nw,
            e2 == q * p - nw,
    ;
    assert(size(g * q) == size(g) * q) by (nonlinear_arith)
        requires
            q > 0,
    ;
    assert(size(e1 - e2) * PARTS <= size(e1) * PARTS + size(e2) * PARTS) by (nonlinear_arith);
    assert(size(g) * q * PARTS <= nw + q * BINADE + nw + qp);
    assert(size(g) * PARTS <= 8 * p + 2 * BINADE) by (nonlinear_arith)
        requires
            size(g) * q * PARTS <= nw + q * BINADE + nw + qp,
            nw <= 2 * qp,
            qp == q * p,
            q > 0,
            p > 0,
    ;
}

/// A share of the mid price that is near to the distance from it.
proof fn lemma_moved_from(p: int, m: int, a: int, d: int, r: int, w: int)
    requires
        p > 0,
        m > 0,
        a >= 0,
        w >= BINADE,
        size(a - p) * PARTS <= 8 * p + 2 * BINADE,
        size(d - (a - m)) * PARTS <= size(a - m),
        size(r * m - d * w) * PARTS <= size(d) * w + size(m) * BINADE,
    ensures
        size(r * m - (p - m) * w) * PARTS <= 64 * ((p + m + BINADE) * w),
{
    let g = a - p;
    let t = p + m + BINADE as int;
    assert(size(g) <= size(g) * PARTS) by (nonlinear_arith);
    assert(a <= 9 * p + 2 * BINADE);
    let h = d - (a - m);
    assert(size(h) <= size(h) * PARTS) by (nonlinear_arith);
    assert(size(a - m) <= 9 * t);
    assert(size(d) <= 18 * t);
    let e = r * m - d * w;
    let b = h + g;
    assert(size(b) * PARTS <= 17 * t) by {
        assert(size(b) * PARTS <= size(h) * PARTS + size(g) * PARTS) by (nonlinear_arith)
            requires
                b == h + g,
        ;
    }
    assert(r * m - (p - m) * w == e + b * w) by (nonlinear_arith)
        requires
            e == r * m - d * w,
            b == d - (a - m) + (a - p),
    ;
    let bw = b * w;
    assert(size(bw) * PARTS <= 17 * (t * w)) by (nonlinear_arith)
        requires
            bw == b * w,
            size(b) * PARTS <= 17 * t,
            w > 0,
    ;
    assert(size(d) * w <= 18 * (t * w)) by (nonlinear_arith)
        requires
            size(d) <= 18 * t,
            w > 0,
    ;
    assert(size(m) * BINADE <= t * w) by (nonlinear_arith)
        requires
            0 < m <= t,
            w >= BINADE,
    ;
    assert(size(e + bw) * PARTS <= size(e) * PARTS + size(bw) * PARTS) by (nonlinear_arith);
    assert(t * w >= 0) by (nonlinear_arith)
        requires
            t >= 0,
            w > 0,
    ;
}

/// The fraction that was bought times the volume is what was bought, up to rounding.
pub proof fn bought_is_a_share_of_the_volume(history: TradeHistory)
    requires
        ({
            let (bought, sold) = (
                sum_of_seq(history.buy_sizes@),
                sum_of_seq(history.sell_sizes@),
            );
            &&& Real::whole(0) <= bought
            &&& Real::whole(0) <= sold
            &&& Real::whole(0) < bought + sold
            &&& (bought + sold).finite()
        }),
    ensures
        ({
            let (bought, sold) = (
                sum_of_seq(history.buy_sizes@),
                sum_of_seq(history.sell_sizes@),
            );
            let r = history.buy_fraction();
            &&& Real::whole(0) <= r
            &&& r <= Real::whole(1)
            &&& is_quotient(r, bought, bought + sold)
            &&& sold.zero() ==> r == Real::whole(1)
            &&& bought.zero() ==> r.zero()
        }),
{
    let (bought, sold) = (sum_of_seq(history.buy_sizes@), sum_of_seq(history.sell_sizes@));
    let total = bought + sold;
    lemma_whole(0);
    lemma_whole(1);
    lemma_pow2_pos(1074);
    assert(0 * pow2(1074) == 0);
    assert(1 * pow2(1074) == pow2(1074));
    crate::num::rules::lemma_finite_terms(bought, sold);
    lemma_zero_value(total);
    lemma_add_grows(bought, sold);
    lemma_div_monotone(bought, total, total);
    lemma_over_itself(total);
    lemma_between(Real::whole(0), bought / total, Real::whole(1));
    lemma_operations_are_close(bought, total);
    if sold.zero() {
        lemma_plus_zero(bought, sold);
        lemma_zero_value(bought);
    }
    if bought.zero() {
        lemma_zero_over(bought, total);
    }
}

/// Without volume neither side prevails.
pub proof fn no_volume_is_balanced(history: TradeHistory)
    requires
        history.buy_sizes@.len() == 0,
        history.sell_sizes@.len() == 0,
    ensures
        history.buy_fraction() == Real::ratio(1, 2),
{
    let o = sum_of_seq(Seq::<Real>::empty());
    assert(history.buy_sizes@ =~= Seq::<Real>::empty());
    assert(history.sell_sizes@ =~= Seq::<Real>::empty());
    lemma_whole(0);
    assert(0 * pow2(1074) == 0);
    lemma_plus_zero(o, o);
}

/// A rolled sequence ends with what was added; before it stand the latest of the earlier
/// elements in their order, as many as the capacity leaves room for.
pub proof fn rolling_forgets_the_oldest<T>(s: Seq<T>, x: T, cap: nat)
    requires
        s.len() <= cap,
        cap > 0,
    ensures
        ({
            let (r, lost) = (
                rolled(s, x, cap),
                if s.len() < cap {
                    0int
                } else {
                    1int
                },
            );
            &&& r.len() == s.len() + 1 - lost
            &&& r.len() <= cap
            &&& r.last() == x
            &&& forall|i: int| 0 <= i < r.len() - 1 ==> #[trigger] r[i] == s[i + lost]
        }),
{
}

/// What is kept of a history is all of it but some first elements, each from before the
/// cutoff, and starts at the cutoff or later; the sizes are those of the same trades.
pub proof fn window_drops_only_the_past(times: Seq<u64>, sizes: Seq<Real>, cutoff: u64) -> (k: int)
    requires
        sizes.len() == times.len(),
    ensures
        0 <= k <= times.len(),
        since(times, cutoff) == times.skip(k),
        sizes_since(times, sizes, cutoff) == sizes.skip(k),
        forall|i: int| 0 <= i < k ==> #[trigger] times[i] < cutoff,
        k < times.len() ==> times[k] >= cutoff,
    decreases times.len(),
{
    if times.len() > 0 && times[0] < cutoff {
        let (t, z) = (times.drop_first(), sizes.drop_first());
        let j = window_drops_only_the_past(t, z, cutoff);
        assert(t.skip(j) =~= times.skip(j + 1));
        assert(z.skip(j) =~= sizes.skip(j + 1));
        assert forall|i: int| 0 <= i < j + 1 implies #[trigger] times[i] < cutoff by {
            if i > 0 {
                assert(t[i - 1] < cutoff);
            }
        }
        j + 1
    } else {
        assert(times.skip(0) =~= times);
        assert(sizes.skip(0) =~= sizes);
        0
    }
}

/// A trade is the latest of its side once it was added, with its size; what is left of
/// either side is an end of what was there.
pub proof fn trade_is_the_latest_of_its_side(h: TradeTimes, trade: Trade)
    requires
        h.buys.len() == h.buy_sizes.len(),
        h.sells.len() == h.sell_sizes.len(),
    ensures
        ({
            let r = h.after(trade);
            &&& trade.side == Side::Bid ==> r.buys.len() > 0 && r.buys.last() == trade.time
                && r.buy_sizes.last() == or_zero(trade.sz) && r.sells.len() <= h.sells.len()
            &&& trade.side == Side::Ask ==> r.sells.len() > 0 && r.sells.last() == trade.time
                && r.sell_sizes.last() == or_zero(trade.sz) && r.buys.len() <= h.buys.len()
            &&& r.buys.len() == r.buy_sizes.len()
            &&& r.sells.len() == r.sell_sizes.len()
            &&& r.buys.len() > 0 ==> trade.time <= r.buys[0] + h.window
            &&& r.sells.len() > 0 ==> trade.time <= r.sells[0] + h.window
            &&& r.window == h.window
        }),
{
    let sz = or_zero(trade.sz);
    let cutoff = window_start(trade.time, h.window);
    let (buys, buy_sizes) = match trade.side {
        Side::Bid => (h.buys.push(trade.time), h.buy_sizes.push(sz)),
        Side::Ask => (h.buys, h.buy_sizes),
    };
    let (sells, sell_sizes) = match trade.side {
        Side::Bid => (h.sells, h.sell_sizes),
        Side::Ask => (h.sells.push(trade.time), h.sell_sizes.push(sz)),
    };
    let k = window_drops_only_the_past(buys, buy_sizes, cutoff);
    let j = window_drops_only_the_past(sells, sell_sizes, cutoff);
    if trade.side == Side::Bid && k == buys.len() {
        assert(buys[k - 1] < cutoff);
    }
    if trade.side == Side::Ask && j == sells.len() {
        assert(sells[j - 1] < cutoff);
    }
}

/// A bar holds the numbers of its candle.
pub proof fn bar_keeps_the_candle(f: Oracle, c: Candle, prev_close: Option<Real>)
    ensures
        ({
            let b = bar_of(f, c, prev_close);
            &&& b.open_time == c.open_time
            &&& b.num_trades == c.num_trades
            &&& c.open matches Some(x) ==> b.open == x
            &&& c.high matches Some(x) ==> b.high == x
            &&& c.low matches Some(x) ==> b.low == x
            &&& c.close matches Some(x) ==> b.close == x
            &&& c.volume matches Some(x) ==> b.volume == x
        }),
{
}

/// The logarithm that is supplied never falls and is zero at one.
pub open spec fn ln_is_monotone(f: Oracle) -> bool {
    &&& forall|x: Real, y: Real| x <= y ==> #[trigger] ln_of(f, x) <= #[trigger] ln_of(f, y)
    &&& ln_of(f, Real::whole(1)) == Real::whole(0)
}

/// The log return of a bar is zero where the close has not changed, not negative where it
/// has risen, not positive where it has fallen, and no less for a higher close.
pub proof fn log_return_follows_the_close(
    f: Oracle,
    c: Candle,
    d: Candle,
    close: Real,
    other: Real,
    before: Real,
)
    requires
        ln_is_monotone(f),
        c.close == Some(close),
        d.close == Some(other),
        Real::whole(0) <= close,
        close <= other,
        other.finite(),
        Real::whole(0) < before,
        before.finite(),
    ensures
        ({
            let (r, s) = (
                bar_of(f, c, Some(before)).log_return,
                bar_of(f, d, Some(before)).log_return,
            );
            &&& r <= s
            &&& close == before ==> r == Real::whole(0)
            &&& close <= before ==> r <= Real::whole(0)
            &&& before <= close ==> Real::whole(0) <= r
        }),
{
    lemma_whole(0);
    assert(0 * pow2(1074) == 0);
    lemma_div_monotone(close, other, before);
    lemma_zero_value(before);
    lemma_over_itself(before);
    lemma_between(Real::whole(0), close, other);
    if close <= before {
        lemma_div_monotone(close, before, before);
    }
    if before <= close {
        lemma_div_monotone(before, close, before);
    }
}

/// The first bar has no return.
pub proof fn first_bar_has_no_return(f: Oracle, c: Candle)
    ensures
        bar_of(f, c, None).log_return == Real::whole(0),
{
}

} // verus!
