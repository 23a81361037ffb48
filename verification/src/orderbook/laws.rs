//! What the order book features say of the book.
use vstd::arithmetic::power2::{lemma_pow2_pos, pow2};
use vstd::prelude::*;

use crate::data::store::{or_zero, top_values, BookLevel, OrderBookState};
use crate::num::drift::{exact_sum, lemma_add_close, size, sizes, PARTS};
use crate::num::model::{mag_units, BINADE};
use crate::num::order::lemma_whole;
use crate::num::rules::{
    is_quotient, lemma_finite_factors, lemma_finite_terms, lemma_operations_are_close,
    lemma_product_near, lemma_quotient_near, lemma_sum_near, lemma_sum_over, near_ratio,
};
use crate::num::series::sum_of_seq;
use crate::num::Real;
use crate::orderbook::features::{book_features, no_features};

verus! {

/// The book has a mid price other than zero.
pub open spec fn has_mid(book: OrderBookState) -> bool {
    book.mid() matches Some(mid) && !mid.same_as(Real::whole(0))
}

/// The price times the size of the first levels, exactly.
pub open spec fn exact_value(levels: Seq<BookLevel>, n: nat) -> int
    decreases n,
{
    if n == 0 {
        0
    } else {
        exact_value(levels, (n - 1) as nat) + or_zero(levels[n - 1].px).value() * or_zero(
            levels[n - 1].sz,
        ).value()
    }
}

/// The first levels have prices and sizes that are not negative, and values that are
/// finite.
pub open spec fn are_sound(levels: Seq<BookLevel>, n: usize) -> bool {
    &&& forall|i: int|
        0 <= i < n && i < levels.len() ==> !or_zero((#[trigger] levels[i]).px).negative()
            && !or_zero(levels[i].sz).negative()
    &&& sum_of_seq(sizes(top_values(levels, n))).finite()
}

proof fn lemma_exact_value(levels: Seq<BookLevel>, n: usize, m: nat)
    requires
        m <= n,
        m <= levels.len(),
        are_sound(levels, n),
    ensures
        exact_value(levels, m) >= 0,
        size(exact_sum(top_values(levels, n).take(m as int)) * pow2(1074) - exact_value(levels, m))
            * PARTS <= exact_value(levels, m) + m * (pow2(1074) * BINADE),
    decreases m,
{
    let s = top_values(levels, n);
    let w = pow2(1074) as int;
    lemma_pow2_pos(1074);
    lemma_whole(0);
    assert(0 * pow2(1074) == 0);
    if m == 0 {
        assert(s.take(0).len() == 0);
        assert(exact_sum(s.take(0)) == 0);
        assert(0 * (w * BINADE) == 0);
    } else {
        let k = (m - 1) as nat;
        lemma_exact_value(levels, n, k);
        assert(s.take(m as int).drop_last() =~= s.take(k as int));
        let (px, sz) = (or_zero(levels[k as int].px), or_zero(levels[k as int].sz));
        let v = px * sz;
        assert(s[k as int] == v);
        assert(v.finite()) by {
            lemma_finite_values(s, k as int);
        }
        lemma_finite_factors(px, sz);
        lemma_product_near(px, sz);
        let (e0, x0) = (exact_sum(s.take(k as int)), exact_value(levels, k));
        let x = px.value() * sz.value();
        assert(x >= 0) by (nonlinear_arith)
            requires
                x == px.value() * sz.value(),
                px.value() >= 0,
                sz.value() >= 0,
        ;
        let (vv, kk) = (v.value(), k as int);
        assert((e0 + vv) * w - (x0 + x) == (e0 * w - x0) + (vv * w - x)) by (nonlinear_arith);
        let (a, b) = (e0 * w - x0, vv * w - x);
        assert(size(a + b) * PARTS <= size(a) * PARTS + size(b) * PARTS) by (nonlinear_arith);
        assert(kk * (w * BINADE) + w * BINADE == (kk + 1) * (w * BINADE)) by (nonlinear_arith);
        assert(exact_sum(s.take(m as int)) == e0 + vv);
    }
}

/// The elements of a sequence whose sizes have a finite sum are finite.
proof fn lemma_finite_values(s: Seq<Real>, i: int)
    requires
        sum_of_seq(sizes(s)).finite(),
        0 <= i < s.len(),
    ensures
        s[i].finite(),
    decreases s.len(),
{
    let t = sizes(s);
    assert(t.drop_last() =~= sizes(s.drop_last()));
    lemma_finite_terms(sum_of_seq(t.drop_last()), t.last());
    if i < s.len() - 1 {
        lemma_finite_values(s.drop_last(), i);
        assert(s.drop_last()[i] == s[i]);
    }
}

/// The depths of the features are the values of the first five levels, price times size,
/// up to rounding.
pub proof fn depths_are_values_of_five_levels(book: OrderBookState, adv: Real)
    requires
        has_mid(book),
        are_sound(book.bids@, 5),
        are_sound(book.asks@, 5),
    ensures
        ({
            let f = book_features(book, adv);
            &&& is_value_of_five(f.bid_depth_5, book.bids@)
            &&& is_value_of_five(f.ask_depth_5, book.asks@)
        }),
{
    lemma_depth(book.bids@);
    lemma_depth(book.asks@);
}

/// The number is the value of the first five levels, or of all where there are fewer, up
/// to rounding.
pub open spec fn is_value_of_five(r: Real, levels: Seq<BookLevel>) -> bool {
    let n = if levels.len() <= 5 {
        levels.len()
    } else {
        5
    };
    let (x, w) = (exact_value(levels, n), pow2(1074) as int);
    size(r.value() * w - x) * PARTS <= x + 20 * (r.value() * w) + 5 * (w * BINADE)
}

proof fn lemma_depth(levels: Seq<BookLevel>)
    requires
        are_sound(levels, 5),
    ensures
        is_value_of_five(sum_of_seq(top_values(levels, 5)), levels),
{
    let s = top_values(levels, 5);
    let n = s.len();
    let w = pow2(1074) as int;
    lemma_pow2_pos(1074);
    lemma_sum_near(s);
    lemma_exact_value(levels, 5, n);
    assert(s.take(n as int) =~= s);
    assert(sizes(s) =~= s) by {
        assert forall|i: int| 0 <= i < n implies sizes(s)[i] == s[i] by {
            lemma_finite_values(s, i);
            let (px, sz) = (or_zero(levels[i].px), or_zero(levels[i].sz));
            lemma_whole(0);
            assert(0 * pow2(1074) == 0);
            assert(s[i] == px * sz);
            reveal(Real::spec_mul);
            crate::num::order::lemma_round_bound(
                mag_units(px.mag()) * mag_units(sz.mag()),
                pow2(1074),
            );
        }
    }
    let (r, e, x, m) = (sum_of_seq(s).value(), exact_sum(s), exact_value(levels, n), n as int);
    assert(r >= 0);
    let (a, b) = (r - e, e * w - x);
    assert(r * w - x == a * w + b) by (nonlinear_arith)
        requires
            a == r - e,
            b == e * w - x,
    ;
    assert(size(a * w) * PARTS <= 20 * (r * w)) by (nonlinear_arith)
        requires
            size(a) * PARTS <= m * (4 * r),
            0 <= m <= 5,
            r >= 0,
            w > 0,
    ;
    assert(m * (w * BINADE) <= 5 * (w * BINADE)) by (nonlinear_arith)
        requires
            m <= 5,
            w > 0,
    ;
    let aw = a * w;
    assert(size(aw + b) * PARTS <= size(aw) * PARTS + size(b) * PARTS) by (nonlinear_arith);
}

/// The imbalance of the depths times their sum is their difference, up to rounding; it
/// has the sign of the difference.
pub proof fn imbalance_is_a_share_of_the_depth(book: OrderBookState, adv: Real)
    requires
        has_mid(book),
        ({
            let f = book_features(book, adv);
            let total = f.bid_depth_5 + f.ask_depth_5;
            &&& Real::whole(0) < total
            &&& total.finite()
            &&& f.depth_ofi.finite()
            &&& (f.bid_depth_5 - f.ask_depth_5).finite()
        }),
    ensures
        ({
            let f = book_features(book, adv);
            let total = f.bid_depth_5 + f.ask_depth_5;
            &&& near_ratio(
                f.depth_ofi,
                f.bid_depth_5.value() - f.ask_depth_5.value(),
                total.value(),
                3,
            )
            &&& f.bid_depth_5.value() >= f.ask_depth_5.value() ==> f.depth_ofi.value() >= 0
            &&& f.bid_depth_5.value() <= f.ask_depth_5.value() ==> f.depth_ofi.value() <= 0
        }),
{
    let f = book_features(book, adv);
    let (bid, ask) = (f.bid_depth_5, f.ask_depth_5);
    let total = bid + ask;
    lemma_whole(0);
    assert(0 * pow2(1074) == 0);
    lemma_finite_terms(bid, ask);
    lemma_sum_over(bid, ask, total);
    lemma_quotient_near(bid - ask, total);
    crate::num::rules::lemma_difference_sign(bid, ask);
    let (d, t) = ((bid - ask).value(), total.value());
    assert(d >= 0 ==> d * t >= 0) by (nonlinear_arith)
        requires
            t > 0,
    ;
    assert(d <= 0 ==> d * t <= 0) by (nonlinear_arith)
        requires
            t > 0,
    ;
}

/// The depth ratio times the ask depth is the bid depth, up to rounding.
pub proof fn depth_ratio_compares_the_depths(book: OrderBookState, adv: Real)
    requires
        has_mid(book),
        ({
            let f = book_features(book, adv);
            &&& Real::whole(0) < f.ask_depth_5
            &&& f.ask_depth_5.finite()
            &&& f.bid_depth_5.finite()
            &&& f.depth_ratio.finite()
        }),
    ensures
        ({
            let f = book_features(book, adv);
            is_quotient(f.depth_ratio, f.bid_depth_5, f.ask_depth_5)
        }),
{
    lemma_whole(0);
    assert(0 * pow2(1074) == 0);
    let f = book_features(book, adv);
    lemma_operations_are_close(f.bid_depth_5, f.ask_depth_5);
}

/// The features hold the mid price and the spread of the book, and the size of the impact
/// of buying a hundredth of the daily volume.
pub proof fn features_are_those_of_the_book(book: OrderBookState, adv: Real)
    requires
        has_mid(book),
    ensures
        ({
            let f = book_features(book, adv);
            &&& Some(f.mid_price) == book.mid()
            &&& Some(f.spread_bps) == book.spread()
            &&& f.price_impact_1pct == book.impact(adv * Real::ratio(1, 100), true).abs()
        }),
{
}

/// A book without a mid price has no features.
pub proof fn no_mid_has_no_features(book: OrderBookState, adv: Real)
    requires
        book.mid() is None,
    ensures
        book_features(book, adv) == no_features(),
{
    lemma_whole(0);
    assert(0 * pow2(1074) == 0);
}

/// The micro price times both sizes is the bid price times the ask size and the ask price
/// times the bid size, up to rounding: the thinner side pulls it.
pub proof fn micro_price_is_weighted_by_the_opposite_sizes(
    book: OrderBookState,
    adv: Real,
    bid: Real,
    ask: Real,
    bid_size: Real,
    ask_size: Real,
)
    requires
        has_mid(book),
        book.bids@.len() > 0,
        book.asks@.len() > 0,
        book.bids@[0] == (BookLevel { px: Some(bid), sz: Some(bid_size) }),
        book.asks@[0] == (BookLevel { px: Some(ask), sz: Some(ask_size) }),
        Real::whole(0) <= bid,
        Real::whole(0) <= ask,
        Real::whole(0) <= bid_size,
        Real::whole(0) <= ask_size,
        Real::whole(0) < bid_size + ask_size,
        (bid_size + ask_size).finite(),
        (bid * ask_size + ask * bid_size).finite(),
        book_features(book, adv).micro_price.finite(),
    ensures
        ({
            let (r, t, w) = (
                book_features(book, adv).micro_price.value(),
                (bid_size + ask_size).value(),
                pow2(1074) as int,
            );
            let x = bid.value() * ask_size.value() + ask.value() * bid_size.value();
            size(r * t - x) * PARTS <= 7 * x + 8 * (w * BINADE) + t * BINADE
        }),
{
    let w = pow2(1074) as int;
    lemma_pow2_pos(1074);
    lemma_whole(0);
    assert(0 * pow2(1074) == 0);
    let (p1, p2) = (bid * ask_size, ask * bid_size);
    let (n, t) = (p1 + p2, bid_size + ask_size);
    let r = book_features(book, adv).micro_price;
    assert(r == n / t);
    lemma_finite_terms(p1, p2);
    lemma_finite_factors(bid, ask_size);
    lemma_finite_factors(ask, bid_size);
    lemma_product_near(bid, ask_size);
    lemma_product_near(ask, bid_size);
    lemma_add_close(p1, p2);
    lemma_quotient_near(n, t);
    let (x1, x2) = (bid.value() * ask_size.value(), ask.value() * bid_size.value());
    assert(x1 >= 0) by (nonlinear_arith)
        requires
            x1 == bid.value() * ask_size.value(),
            bid.value() >= 0,
            ask_size.value() >= 0,
    ;
    assert(x2 >= 0) by (nonlinear_arith)
        requires
            x2 == ask.value() * bid_size.value(),
            ask.value() >= 0,
            bid_size.value() >= 0,
    ;
    lemma_weighted_pair(p1.value(), p2.value(), n.value(), x1, x2, w);
    let (nv, rv, tv) = (n.value(), r.value(), t.value());
    let x = x1 + x2;
    let (a, b) = (rv * tv - nv * w, nv * w - x);
    assert(size(nv * w) == nv * w) by (nonlinear_arith)
        requires
            nv >= 0,
            w > 0,
    ;
    assert(size(a + b) * PARTS <= size(a) * PARTS + size(b) * PARTS) by (nonlinear_arith);
}

/// The sum of two products, each near to its exact one.
proof fn lemma_weighted_pair(p1: int, p2: int, n: int, x1: int, x2: int, w: int)
    requires
        p1 >= 0,
        p2 >= 0,
        x1 >= 0,
        x2 >= 0,
        w > 0,
        size(p1 * w - x1) * PARTS <= x1 + w * BINADE,
        size(p2 * w - x2) * PARTS <= x2 + w * BINADE,
        size(n - (p1 + p2)) * PARTS <= p1 + p2,
    ensures
        n >= 0,
        n * w <= 4 * (x1 + x2) + 4 * (w * BINADE),
        size(n * w - (x1 + x2)) * PARTS <= 3 * (x1 + x2) + 4 * (w * BINADE),
{
    let s = p1 + p2;
    let (a, b, c) = (p1 * w - x1, p2 * w - x2, n - s);
    assert(size(a) <= size(a) * PARTS) by (nonlinear_arith);
    assert(size(b) <= size(b) * PARTS) by (nonlinear_arith);
    assert(2 * size(c) <= size(c) * PARTS) by (nonlinear_arith);
    let wb = w * BINADE;
    let sw = s * w;
    assert(sw == p1 * w + p2 * w) by (nonlinear_arith)
        requires
            s == p1 + p2,
            sw == s * w,
    ;
    assert(sw <= 2 * (x1 + x2) + 2 * wb);
    let cw = c * w;
    assert(size(cw) * PARTS <= sw) by (nonlinear_arith)
        requires
            cw == c * w,
            sw == s * w,
            size(c) * PARTS <= s,
            w > 0,
    ;
    assert(n * w == sw + cw) by (nonlinear_arith)
        requires
            c == n - s,
            cw == c * w,
            sw == s * w,
    ;
    assert(size(cw) <= size(cw) * PARTS) by (nonlinear_arith);
    assert(n * w - (x1 + x2) == a + b + cw);
    assert(size(a + b + cw) * PARTS <= size(a) * PARTS + size(b) * PARTS + size(cw) * PARTS)
        by (nonlinear_arith);
}

} // verus!
