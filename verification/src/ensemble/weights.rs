//! What the weights of the fused sources keep.
use vstd::arithmetic::power2::*;
use vstd::prelude::*;

use crate::ensemble::fusion::{active_among, evidence_ratios, largest_active, weights_of};
use crate::num::constants::{minus_infinity, tiny30};
use crate::num::drift::{
    exact_sum, lemma_add_close, lemma_add_mag, lemma_at_most_one, lemma_difference,
    lemma_div_close, lemma_mul_close, lemma_mul_shrinks, lemma_one_bits, lemma_quotient, lemma_same_sum,
    lemma_scaled_sum, near_product, size, sizes, PARTS,
};
use crate::num::elementary::{exp_is_monotone, exp_of, Oracle};
use crate::num::magnitude::{lemma_round_zero, lemma_units_zero};
use crate::num::model::BINADE;
use crate::num::ops::{lemma_order_key, lemma_round_exact};
use crate::num::order::{
    lemma_add_commutes, lemma_add_grows, lemma_add_monotone, lemma_add_not_negative, lemma_count,
    lemma_count_order, lemma_div_antitone, lemma_div_monotone, lemma_mul_monotone,
    lemma_round_monotone, lemma_share, lemma_units_order, lemma_whole, lemma_whole_order,
};
use crate::num::series::sum_of_seq;
use crate::num::Real;

verus! {

/// The evidence of every active source is a finite number.
pub open spec fn evidence_is_finite(ema: Seq<Real>, active: Seq<bool>) -> bool {
    forall|i: int| 0 <= i < active.len() && active[i] ==> (#[trigger] ema[i]).finite()
}

spec fn not_negative(s: Seq<Real>) -> bool {
    forall|i: int| 0 <= i < s.len() ==> Real::whole(0) <= #[trigger] s[i]
}

/// The largest evidence is no smaller than any, and finite once there is one.
proof fn lemma_largest(ema: Seq<Real>, active: Seq<bool>, n: nat)
    requires
        n <= active.len() <= ema.len(),
        evidence_is_finite(ema, active),
    ensures
        ({
            let top = largest_active(ema, active, n);
            &&& top == minus_infinity() || top.finite()
            &&& forall|i: int| 0 <= i < n && active[i] ==> (#[trigger] ema[i]) <= top
            &&& forall|i: int| 0 <= i < n && #[trigger] active[i] ==> top.finite()
        }),
    decreases n,
{
    if n > 0 {
        let m = (n - 1) as nat;
        lemma_largest(ema, active, m);
        let before = largest_active(ema, active, m);
        let top = largest_active(ema, active, n);
        if active[m as int] {
            let x = ema[m as int];
            assert(x.finite());
            lemma_order_key(minus_infinity(), x);
            assert(top.finite());
            assert(before <= top && x <= top);
        }
        assert forall|i: int| 0 <= i < n && active[i] implies (#[trigger] ema[i]) <= top by {
            if i < m {
                assert(ema[i] <= before);
            }
        }
    }
}

/// The ratios of the evidence lie between zero and one.
proof fn lemma_ratios(f: Oracle, ema: Seq<Real>, active: Seq<bool>)
    requires
        active.len() <= ema.len(),
        evidence_is_finite(ema, active),
        exp_is_monotone(f),
    ensures
        forall|i: int|
            0 <= i < active.len() ==> {
                let r = #[trigger] evidence_ratios(f, ema, active)[i];
                Real::whole(0) <= r && r <= Real::whole(1) && r.finite()
            },
{
    let top = largest_active(ema, active, active.len());
    lemma_largest(ema, active, active.len());
    lemma_whole(0);
    lemma_whole(1);
    lemma_whole_order(0, 1);
    assert forall|i: int| 0 <= i < active.len() implies {
        let r = #[trigger] evidence_ratios(f, ema, active)[i];
        Real::whole(0) <= r && r <= Real::whole(1) && r.finite()
    } by {
        if active[i] {
            assert(ema[i] <= top);
            assert(ema[i].finite());
            lemma_difference(ema[i], top);
            let d = ema[i] - top;
            assert(exp_of(f, d) <= exp_of(f, Real::whole(0)));
            lemma_order_key(exp_of(f, d), Real::whole(1));
            lemma_units_zero(exp_of(f, d).mag());
        }
    }
}

/// A sum of numbers that are not negative is at least each of them.
proof fn lemma_sum_covers(s: Seq<Real>)
    requires
        not_negative(s),
    ensures
        Real::whole(0) <= sum_of_seq(s),
        forall|i: int| 0 <= i < s.len() ==> (#[trigger] s[i]) <= sum_of_seq(s),
    decreases s.len(),
{
    lemma_whole(0);
    lemma_units_zero(0);
    if s.len() > 0 {
        let t = s.drop_last();
        let x = s.last();
        assert forall|i: int| 0 <= i < t.len() implies Real::whole(0) <= #[trigger] t[i] by {
            assert(Real::whole(0) <= s[i]);
        }
        assert(Real::whole(0) <= s[s.len() - 1]);
        lemma_sum_covers(t);
        lemma_add_not_negative(sum_of_seq(t), x);
        lemma_add_commutes(sum_of_seq(t), x);
        lemma_add_grows(sum_of_seq(t), x);
        lemma_add_grows(x, sum_of_seq(t));
        assert forall|i: int| 0 <= i < s.len() implies (#[trigger] s[i]) <= sum_of_seq(s) by {
            if i < t.len() {
                assert(t[i] <= sum_of_seq(t));
            }
        }
    }
}

/// What is left after the floors is a number between zero and one.
proof fn lemma_remaining(floors: Real)
    requires
        Real::whole(0) <= floors,
        !(floors >= Real::whole(1)),
    ensures
        Real::whole(0) <= Real::whole(1) - floors,
        (Real::whole(1) - floors).finite(),
{
    lemma_whole(0);
    lemma_whole(1);
    let one = Real::whole(1);
    assert(floors.finite()) by {
        lemma_order_key(floors, one);
        lemma_units_zero(floors.mag());
    }
    lemma_add_mag(one, floors.neg());
    lemma_round_exact(one.mag());
    lemma_round_monotone(
        (one.value() - floors.value()) as nat,
        1,
        one.value() as nat,
        1,
    );
}

/// Evidence of two sources, and what their weights are made of.
proof fn lemma_shares(
    f: Oracle,
    ema: Seq<Real>,
    active: Seq<bool>,
    i: int,
    j: int,
)
    requires
        active.len() <= ema.len(),
        0 <= i < active.len(),
        0 <= j < active.len(),
        active[i] && active[j],
        evidence_is_finite(ema, active),
        ema[i] <= ema[j],
        exp_is_monotone(f),
    ensures
        ({
            let ratios = evidence_ratios(f, ema, active);
            let all = sum_of_seq(ratios).max(tiny30());
            &&& Real::whole(0) <= ratios[i] / all
            &&& ratios[i] / all <= ratios[j] / all
            &&& (ratios[j] / all).finite()
        }),
{
    let ratios = evidence_ratios(f, ema, active);
    let all = sum_of_seq(ratios).max(tiny30());
    let top = largest_active(ema, active, active.len());
    lemma_largest(ema, active, active.len());
    lemma_ratios(f, ema, active);
    assert(ema[i].finite() && ema[j].finite());
    lemma_difference(ema[i], top);
    lemma_difference(ema[j], top);
    lemma_add_monotone(ema[i], ema[j], top.neg());
    assert(exp_of(f, ema[i] - top) <= exp_of(f, ema[j] - top));
    assert(not_negative(ratios));
    lemma_sum_covers(ratios);
    assert(ratios[j] <= sum_of_seq(ratios));
    lemma_whole(0);
    lemma_whole(1);
    assert(Real::whole(0) < tiny30()) by {
        lemma_units_zero(tiny30().mag());
    }
    assert(Real::whole(0) < all);
    lemma_div_monotone(ratios[i], ratios[j], all);
    lemma_at_most_one(ratios[j], all);
}

/// A source with better evidence has no less weight, as far as the exponential
/// that is supplied never falls.
pub proof fn better_evidence_has_no_less_weight(
    f: Oracle,
    ema: Seq<Real>,
    active: Seq<bool>,
    floor: Real,
    i: int,
    j: int,
)
    requires
        active.len() <= ema.len() <= usize::MAX,
        0 <= i < active.len(),
        0 <= j < active.len(),
        active[i] && active[j],
        evidence_is_finite(ema, active),
        ema[i] <= ema[j],
        exp_is_monotone(f),
        Real::whole(0) <= floor,
        floor.finite(),
    ensures
        weights_of(f, ema, active, floor)[i] <= weights_of(f, ema, active, floor)[j],
{
    let ratios = evidence_ratios(f, ema, active);
    let all = sum_of_seq(ratios).max(tiny30());
    let k = active_among(active, active.len());
    lemma_active_count(active, active.len());
    let n_active = Real::count(k as usize);
    let floors = floor * n_active;
    lemma_whole_order(0, 1);
    lemma_floors(floor, k as usize);
    lemma_shares(f, ema, active, i, j);
    if floors >= Real::whole(1) {
        lemma_share_number(k as usize);
    } else {
        let rest = Real::whole(1) - floors;
        lemma_remaining(floors);
        let (a, b) = (ratios[i] / all, ratios[j] / all);
        lemma_mul_monotone(a, b, rest);
        lemma_whole(0);
        lemma_add_not_negative(floor, rest * a);
        lemma_add_not_negative(floor, rest * b);
        lemma_add_commutes(floor, rest * a);
        lemma_add_commutes(floor, rest * b);
        lemma_add_monotone(rest * a, rest * b, floor);
    }
}

/// No active source has less than the floor, where the floor is at most an equal
/// share among all sources.
pub proof fn active_source_keeps_floor(
    f: Oracle,
    ema: Seq<Real>,
    active: Seq<bool>,
    floor: Real,
    i: int,
)
    requires
        active.len() <= ema.len() <= usize::MAX,
        0 <= i < active.len(),
        active[i],
        evidence_is_finite(ema, active),
        exp_is_monotone(f),
        Real::whole(0) <= floor,
        floor <= Real::whole(1) / Real::count(ema.len() as usize),
    ensures
        floor <= weights_of(f, ema, active, floor)[i],
{
    let ratios = evidence_ratios(f, ema, active);
    let all = sum_of_seq(ratios).max(tiny30());
    let k = active_among(active, active.len());
    lemma_active_count(active, active.len());
    lemma_active_exists(active, active.len(), i);
    let n_active = Real::count(k as usize);
    let floors = floor * n_active;
    lemma_whole_order(0, 1);
    lemma_whole(1);
    lemma_whole(0);
    lemma_count_order(k as usize, ema.len() as usize);
    lemma_count_order(1, k as usize);
    lemma_count_order(1, ema.len() as usize);
    lemma_count(1);
    let share = Real::whole(1) / Real::count(ema.len() as usize);
    lemma_div_antitone(Real::whole(1), n_active, Real::count(ema.len() as usize));
    lemma_div_antitone(Real::whole(1), Real::whole(1), Real::count(ema.len() as usize));
    lemma_at_most_one(Real::whole(1), Real::whole(1));
    assert(floor.finite()) by {
        lemma_order_key(floor, Real::whole(1) / Real::whole(1));
        lemma_units_zero(floor.mag());
    }
    lemma_floors(floor, k as usize);
    lemma_shares(f, ema, active, i, i);
    if !(floors >= Real::whole(1)) {
        let rest = Real::whole(1) - floors;
        lemma_remaining(floors);
        let a = ratios[i] / all;
        lemma_mul_monotone(a, a, rest);
        lemma_add_not_negative(floor, rest * a);
        lemma_add_grows(floor, rest * a);
    }
}

/// The pattern of one.
proof fn lemma_one()
    ensures
        Real::whole(1).bits == 0x3ff0_0000_0000_0000,
        tiny30() < Real::whole(1),
{
    lemma_one_bits();
    lemma_order_key(tiny30(), Real::whole(1));
}

/// The largest evidence is that of an active source.
proof fn lemma_top_attained(ema: Seq<Real>, active: Seq<bool>, n: nat, i: int) -> (at: int)
    requires
        n <= active.len() <= ema.len(),
        evidence_is_finite(ema, active),
        0 <= i < n,
        active[i],
    ensures
        0 <= at < n,
        active[at],
        ema[at] == largest_active(ema, active, n),
    decreases n,
{
    let m = (n - 1) as nat;
    let before = largest_active(ema, active, m);
    lemma_largest(ema, active, m);
    if !active[m as int] {
        lemma_top_attained(ema, active, m, i)
    } else if before < ema[m as int] {
        m as int
    } else {
        assert(ema[m as int].finite());
        lemma_order_key(minus_infinity(), ema[m as int]);
        if exists|j: int| 0 <= j < m && #[trigger] active[j] {
            let j = choose|j: int| 0 <= j < m && #[trigger] active[j];
            lemma_top_attained(ema, active, m, j)
        } else {
            lemma_no_evidence(ema, active, m);
            m as int
        }
    }
}

proof fn lemma_no_evidence(ema: Seq<Real>, active: Seq<bool>, n: nat)
    requires
        n <= active.len(),
        forall|j: int| 0 <= j < n ==> !#[trigger] active[j],
    ensures
        largest_active(ema, active, n) == minus_infinity(),
    decreases n,
{
    if n > 0 {
        assert(!active[n - 1]);
        lemma_no_evidence(ema, active, (n - 1) as nat);
    }
}

/// A sum of numbers between zero and one is at most their number.
proof fn lemma_sum_of_units(s: Seq<Real>)
    requires
        s.len() < 0x20_0000_0000_0000,
        forall|i: int|
            0 <= i < s.len() ==> Real::whole(0) <= (#[trigger] s[i]) && s[i] <= Real::whole(1)
                && s[i].finite(),
    ensures
        sum_of_seq(s).finite(),
        0 <= sum_of_seq(s).value() <= s.len() * pow2(1074),
    decreases s.len(),
{
    lemma_whole(0);
    lemma_whole(1);
    let w = pow2(1074) as int;
    assert(0 * w == 0 && 1 * w == w);
    lemma_units_zero(0);
    if s.len() > 0 {
        let t = s.drop_last();
        let x = s.last();
        assert forall|i: int| 0 <= i < t.len() implies Real::whole(0) <= (#[trigger] t[i]) && t[i]
            <= Real::whole(1) && t[i].finite() by {
            assert(s[i].finite());
        }
        lemma_sum_of_units(t);
        assert(s[s.len() - 1].finite());
        lemma_whole(s.len() as i64);
        let k = Real::whole(s.len() as i64);
        lemma_add_mag(sum_of_seq(t), x);
        assert(t.len() * w + w == s.len() * w) by (nonlinear_arith)
            requires
                t.len() + 1 == s.len(),
        ;
        let v = sum_of_seq(t).value() + x.value();
        lemma_round_monotone(v as nat, 1, k.value() as nat, 1);
        lemma_round_exact(k.mag());
        lemma_units_order((sum_of_seq(t) + x).mag(), k.mag());
    }
}

/// The parts of a weight of one source: what its errors come to.
proof fn lemma_weight_error(
    w: int,
    s: int,
    f: int,
    rest: int,
    r: int,
    q: int,
    m: int,
    x: int,
)
    requires
        0 <= f <= w,
        0 <= rest <= w,
        0 <= r <= s,
        0 <= q <= w,
        0 <= m <= w,
        0 < w,
        0 < s,
        BINADE <= w,
        size(x - (f + m)) * PARTS <= f + m,
        size(m * w - rest * q) * PARTS <= rest * q + w * BINADE,
        size(q * s - r * w) * PARTS <= r * w + s * BINADE,
    ensures
        size(x * s - (f * s + rest * r)) * PARTS <= 6 * (s * w),
{
    let (e1, e2, e3) = (x - (f + m), m * w - rest * q, q * s - r * w);
    let sw = s * w;
    let (a, b) = (rest * q, rest * r);
    assert(rest * e3 == a * s - b * w) by (nonlinear_arith)
        requires
            e3 == q * s - r * w,
            a == rest * q,
            b == rest * r,
    ;
    assert(s * e2 == sw * m - a * s) by (nonlinear_arith)
        requires
            e2 == m * w - a,
            sw == s * w,
    ;
    assert(sw * e1 == sw * x - sw * f - sw * m) by (nonlinear_arith)
        requires
            e1 == x - (f + m),
    ;
    assert((x * s - (f * s + b)) * w == sw * x - sw * f - b * w) by (nonlinear_arith)
        requires
            sw == s * w,
    ;
    assert(r * w <= sw && s * BINADE <= sw && rest * q <= w * w && w * BINADE <= w * w) by (nonlinear_arith)
        requires
            r <= s,
            BINADE <= w,
            0 <= rest <= w,
            0 <= q <= w,
            0 < s,
            sw == s * w,
    ;
    assert(size(rest * e3) * PARTS <= 2 * (w * sw)) by (nonlinear_arith)
        requires
            size(e3) * PARTS <= 2 * sw,
            0 <= rest <= w,
            sw > 0,
    ;
    assert(size(s * e2) * PARTS <= 2 * (w * sw)) by (nonlinear_arith)
        requires
            size(e2) * PARTS <= 2 * (w * w),
            0 < s,
            sw == s * w,
    ;
    assert(size(sw * e1) * PARTS <= 2 * (w * sw)) by (nonlinear_arith)
        requires
            size(e1) * PARTS <= 2 * w,
            sw > 0,
    ;
    let d = x * s - (f * s + rest * r);
    assert(size(d * w) * PARTS <= 6 * (w * sw));
    assert(size(d) * PARTS <= 6 * sw) by (nonlinear_arith)
        requires
            size(d * w) * PARTS <= 6 * (w * sw),
            w > 0,
    ;
}

/// The weights of the first `n` sources, times the sum of the ratios, are their
/// floors and shares up to rounding.
proof fn lemma_weight_sum(
    f: Oracle,
    ema: Seq<Real>,
    active: Seq<bool>,
    floor: Real,
    n: nat,
)
    requires
        n <= active.len() <= ema.len(),
        active.len() < 0x20_0000_0000_0000,
        active.len() <= usize::MAX,
        evidence_is_finite(ema, active),
        exp_is_monotone(f),
        Real::whole(0) <= floor,
        floor <= Real::whole(1),
        !(floor * Real::count(active_among(active, active.len()) as usize) >= Real::whole(1)),
        exists|i: int| 0 <= i < active.len() && #[trigger] active[i],
    ensures
        ({
            let ratios = evidence_ratios(f, ema, active);
            let s = sum_of_seq(ratios).value();
            let rest = (Real::whole(1) - floor * Real::count(
                active_among(active, active.len()) as usize,
            )).value();
            let x = exact_sum(weights_of(f, ema, active, floor).take(n as int));
            size(
                x * s - (active_among(active, n) * floor.value() * s + rest * exact_sum(
                    ratios.take(n as int),
                )),
            ) * PARTS <= n * (6 * (s * pow2(1074)))
        }),
    decreases n,
{
    let w = pow2(1074) as int;
    let ratios = evidence_ratios(f, ema, active);
    let s = sum_of_seq(ratios).value();
    let k = active_among(active, active.len()) as usize;
    let rest = Real::whole(1) - floor * Real::count(k);
    let ws = weights_of(f, ema, active, floor);
    let c = active_among(active, n) as int;
    let fv = floor.value();
    if n == 0 {
        assert(0 * s == 0 && 0 * fv == 0 && 0 * fv * s == 0 && rest.value() * 0 == 0
            && 0 * (6 * (s * w)) == 0) by (nonlinear_arith);
        assert(ws.take(0).len() == 0 && ratios.take(0).len() == 0);
    } else {
        let m = (n - 1) as nat;
        lemma_weight_sum(f, ema, active, floor, m);
        let i = m as int;
        assert(ws.take(n as int).drop_last() =~= ws.take(i));
        assert(ratios.take(n as int).drop_last() =~= ratios.take(i));
        lemma_whole(0);
        assert(0 * w == 0);
        let x0 = exact_sum(ws.take(i));
        let a0 = exact_sum(ratios.take(i));
        let c0 = active_among(active, m) as int;
        let (x, r) = (ws[i].value(), ratios[i].value());
        assert(ws.take(n as int).last() == ws[i] && ratios.take(n as int).last() == ratios[i]);
        let d0 = x0 * s - (c0 * fv * s + rest.value() * a0);
        assert((x0 + x) * s == x0 * s + x * s) by (nonlinear_arith);
        assert(rest.value() * (a0 + r) == rest.value() * a0 + rest.value() * r) by (nonlinear_arith);
        assert(n * (6 * (s * w)) == m * (6 * (s * w)) + 6 * (s * w)) by (nonlinear_arith)
            requires
                n == m + 1,
        ;
        lemma_source(f, ema, active, floor, i);
        lemma_pow2_pos(1074);
        if active[i] {
            assert(c * fv * s == c0 * fv * s + fv * s) by (nonlinear_arith)
                requires
                    c == c0 + 1,
            ;
        } else {
            assert(rest.value() * r == 0) by (nonlinear_arith)
                requires
                    r == 0,
            ;
            assert(x * s == 0) by (nonlinear_arith)
                requires
                    x == 0,
            ;
            assert(s * w >= 0) by (nonlinear_arith)
                requires
                    s > 0,
                    w >= 0,
            ;
        }
    }
}

/// The weight of one source: its floor and share up to rounding.
proof fn lemma_source(f: Oracle, ema: Seq<Real>, active: Seq<bool>, floor: Real, i: int)
    requires
        0 <= i < active.len() <= ema.len(),
        active.len() < 0x20_0000_0000_0000,
        active.len() <= usize::MAX,
        evidence_is_finite(ema, active),
        exp_is_monotone(f),
        Real::whole(0) <= floor,
        floor <= Real::whole(1),
        !(floor * Real::count(active_among(active, active.len()) as usize) >= Real::whole(1)),
        exists|j: int| 0 <= j < active.len() && #[trigger] active[j],
    ensures
        ({
            let ratios = evidence_ratios(f, ema, active);
            let s = sum_of_seq(ratios).value();
            let rest = (Real::whole(1) - floor * Real::count(
                active_among(active, active.len()) as usize,
            )).value();
            let x = weights_of(f, ema, active, floor)[i].value();
            &&& s >= pow2(1074)
            &&& sum_of_seq(ratios).finite()
            &&& active[i] ==> size(x * s - (floor.value() * s + rest * ratios[i].value())) * PARTS
                <= 6 * (s * pow2(1074))
            &&& !active[i] ==> x == 0 && ratios[i].value() == 0
        }),
{
    let w = pow2(1074) as int;
    lemma_whole(0);
    lemma_whole(1);
    assert(0 * w == 0 && 1 * w == w);
    lemma2_to64_rest();
    lemma_pow2_strictly_increases(52, 1074);
    let ratios = evidence_ratios(f, ema, active);
    let sum = sum_of_seq(ratios);
    let all = sum.max(tiny30());
    let k = active_among(active, active.len()) as usize;
    let floors = floor * Real::count(k);
    let rest = Real::whole(1) - floors;
    lemma_ratios(f, ema, active);
    lemma_sum_of_units(ratios);
    assert(not_negative(ratios));
    lemma_sum_covers(ratios);
    let j = choose|j: int| 0 <= j < active.len() && #[trigger] active[j];
    let top = largest_active(ema, active, active.len());
    let at = lemma_top_attained(ema, active, active.len(), j);
    assert(ema[at].finite());
    assert(ema[at] - top == Real::whole(0)) by {
        reveal(Real::spec_add);
        lemma_round_zero(1);
        assert(0 * pow2(1074) == 0);
    }
    assert(ratios[at] == Real::whole(1));
    assert(ratios[at] <= sum);
    lemma_one();
    assert(all == sum);
    if active[i] {
        lemma_shares(f, ema, active, i, i);
        let q = ratios[i] / all;
        lemma_div_close(ratios[i], all);
        assert(floor.finite()) by {
            lemma_order_key(floor, Real::whole(1));
            lemma_units_zero(floor.mag());
        }
        lemma_floors(floor, k);
        lemma_remaining(floors);
        assert(q.value() <= w) by {
            lemma_at_most_one(ratios[i], all);
        }
        assert(rest.value() <= w) by {
            lemma_remaining_bound(floors);
        }
        lemma_mul_shrinks(rest, q);
        lemma_mul_close(rest, q);
        let m = rest * q;
        let x = floor + m;
        lemma_add_mag(floor, m);
        assert(x.finite()) by {
            lemma_whole(2);
            lemma_round_exact(Real::whole(2).mag());
            lemma_round_monotone((floor.value() + m.value()) as nat, 1, (2 * w) as nat, 1);
        }
        lemma_add_close(floor, m);
        assert(rest.value() * q.value() == q.value() * rest.value()) by (nonlinear_arith);
        lemma_weight_error(
            w,
            sum.value(),
            floor.value(),
            rest.value(),
            ratios[i].value(),
            q.value(),
            m.value(),
            x.value(),
        );
    }
}

/// What is left after the floors is at most one.
proof fn lemma_remaining_bound(floors: Real)
    requires
        Real::whole(0) <= floors,
        !(floors >= Real::whole(1)),
    ensures
        (Real::whole(1) - floors).value() <= pow2(1074),
{
    lemma_whole(0);
    lemma_whole(1);
    let w = pow2(1074);
    assert(0 * w == 0 && 1 * w == w);
    let one = Real::whole(1);
    lemma_order_key(floors, one);
    lemma_units_zero(floors.mag());
    lemma_add_mag(one, floors.neg());
    lemma_round_exact(one.mag());
    lemma_round_monotone((one.value() - floors.value()) as nat, 1, one.value() as nat, 1);
    lemma_units_order((one - floors).mag(), one.mag());
}

/// Equal shares of the first `n` sources, exactly.
proof fn lemma_uniform_sum(
    f: Oracle,
    ema: Seq<Real>,
    active: Seq<bool>,
    floor: Real,
    n: nat,
)
    requires
        n <= active.len(),
        floor * Real::count(active_among(active, active.len()) as usize) >= Real::whole(1),
    ensures
        exact_sum(weights_of(f, ema, active, floor).take(n as int)) == active_among(active, n) * (
        Real::whole(1) / Real::count(active_among(active, active.len()) as usize)).value(),
    decreases n,
{
    let ws = weights_of(f, ema, active, floor);
    let q = (Real::whole(1) / Real::count(
        active_among(active, active.len()) as usize,
    )).value();
    lemma_whole(0);
    assert(0 * pow2(1074) == 0);
    if n == 0 {
        assert(ws.take(0).len() == 0);
        assert(0 * q == 0) by (nonlinear_arith);
    } else {
        let m = (n - 1) as nat;
        lemma_uniform_sum(f, ema, active, floor, m);
        assert(ws.take(n as int).drop_last() =~= ws.take(m as int));
        let c0 = active_among(active, m);
        assert((c0 + 1) * q == c0 * q + q) by (nonlinear_arith);
    }
}

/// The weights of the sources sum to one, up to ten parts in `PARTS` per source
/// and four more.
pub proof fn weights_sum_to_one(f: Oracle, ema: Seq<Real>, active: Seq<bool>, floor: Real)
    requires
        active.len() <= ema.len(),
        active.len() < 0x20_0000_0000_0000,
        active.len() <= usize::MAX,
        evidence_is_finite(ema, active),
        exp_is_monotone(f),
        Real::whole(0) <= floor,
        floor <= Real::whole(1),
        exists|i: int| 0 <= i < active.len() && #[trigger] active[i],
    ensures
        size(exact_sum(weights_of(f, ema, active, floor)) - pow2(1074)) * PARTS <= (10 * active.len()
            + 4) * pow2(1074),
{
    let w = pow2(1074) as int;
    let n = active.len() as int;
    lemma_pow2_pos(1074);
    lemma2_to64_rest();
    lemma_pow2_strictly_increases(52, 1074);
    lemma_whole(0);
    lemma_whole(1);
    assert(0 * w == 0 && 1 * w == w);
    let j = choose|j: int| 0 <= j < active.len() && #[trigger] active[j];
    lemma_active_exists(active, active.len(), j);
    lemma_active_count(active, active.len());
    let c = active_among(active, active.len());
    let k = c as usize;
    let kv = Real::count(k);
    lemma_count(k);
    lemma_whole(k as i64);
    let ws = weights_of(f, ema, active, floor);
    assert(ws.take(n) =~= ws);
    let floors = floor * kv;
    if floors >= Real::whole(1) {
        lemma_uniform_sum(f, ema, active, floor, active.len());
        lemma_share(k);
        assert(c * w > 0) by (nonlinear_arith)
            requires
                c >= 1,
                w > 0,
        ;
        let one = Real::whole(1);
        assert((one / kv).finite()) by {
            if c == 1 {
                lemma_at_most_one(one, kv);
            } else {
                assert(w < c * w) by (nonlinear_arith)
                    requires
                        c >= 2,
                        w > 0,
                ;
                lemma_quotient(one, kv);
            }
        }
        lemma_div_close(one, kv);
        let q = (one / kv).value();
        assert(q * (c * w) - w * w == (c * q - w) * w) by (nonlinear_arith);
        assert(size(c * q - w) * PARTS <= w + c * BINADE) by (nonlinear_arith)
            requires
                size((c * q - w) * w) * PARTS <= w * w + (c * w) * BINADE,
                w > 0,
        ;
        assert(w + c * BINADE <= (10 * n + 4) * w) by (nonlinear_arith)
            requires
                0 <= c <= n,
                BINADE <= w,
        ;
    } else {
        let ratios = evidence_ratios(f, ema, active);
        let sum = sum_of_seq(ratios);
        let s = sum.value();
        let rest = Real::whole(1) - floors;
        lemma_weight_sum(f, ema, active, floor, active.len());
        lemma_source(f, ema, active, floor, j);
        assert(ratios.take(n) =~= ratios);
        let a = exact_sum(ratios);
        lemma_ratio_sum(f, ema, active);
        assert(floor.finite()) by {
            lemma_order_key(floor, Real::whole(1));
            lemma_units_zero(floor.mag());
        }
        lemma_floors(floor, k);
        lemma_remaining(floors);
        lemma_remaining_bound(floors);
        assert(floors.finite()) by {
            lemma_order_key(floors, Real::whole(1));
            lemma_units_zero(floors.mag());
        }
        lemma_mul_close(floor, kv);
        lemma_add_close(Real::whole(1), floors.neg());
        lemma_total(
            w,
            exact_sum(ws),
            s,
            a,
            floor.value(),
            rest.value(),
            floors.value(),
            c as int,
            n,
        );
    }
}

/// Puts the errors of all weights together.
proof fn lemma_total(w: int, x: int, s: int, a: int, f: int, rest: int, floors: int, c: int, n: int)
    requires
        BINADE <= w,
        s > 0,
        0 <= f,
        0 <= c,
        1 <= n,
        0 <= rest <= w,
        0 <= floors <= w,
        size(x * s - (c * f * s + rest * a)) * PARTS <= n * (6 * (s * w)),
        size(a - s) * PARTS <= n * (4 * s),
        size(rest - (w - floors)) * PARTS <= size(w - floors),
        size(floors * w - f * (c * w)) * PARTS <= f * (c * w) + w * BINADE,
    ensures
        size(x - w) * PARTS <= (10 * n + 4) * w,
{
    let cf = c * f;
    let sw = s * w;
    // The shares of the ratios.
    let d = a - s;
    assert(rest * a == rest * s + rest * d) by (nonlinear_arith)
        requires
            d == a - s,
    ;
    assert(size(rest * d) * PARTS <= n * (4 * sw)) by (nonlinear_arith)
        requires
            size(d) * PARTS <= n * (4 * s),
            0 <= rest <= w,
            sw == s * w,
            s > 0,
            n >= 1,
    ;
    let y = x - (cf + rest);
    assert(x * s - (cf * s + rest * s) == y * s) by (nonlinear_arith)
        requires
            y == x - (cf + rest),
    ;
    assert(n * (6 * sw) + n * (4 * sw) == (10 * n * w) * s) by (nonlinear_arith)
        requires
            sw == s * w,
    ;
    assert(size(y * s) * PARTS <= (10 * n * w) * s);
    assert(size(y) * PARTS <= 10 * n * w) by (nonlinear_arith)
        requires
            size(y * s) * PARTS <= (10 * n * w) * s,
            s > 0,
    ;
    // The floors.
    let e = floors - cf;
    assert(floors * w - f * (c * w) == e * w) by (nonlinear_arith)
        requires
            e == floors - cf,
            cf == c * f,
    ;
    assert(f * (c * w) == cf * w) by (nonlinear_arith)
        requires
            cf == c * f,
    ;
    assert(size(e) * PARTS <= cf + BINADE) by (nonlinear_arith)
        requires
            size(e * w) * PARTS <= cf * w + w * BINADE,
            w > 0,
    ;
    assert(cf <= 2 * w + BINADE);
    assert(size(x - w) * PARTS <= size(y) * PARTS + size(cf + rest - w) * PARTS);
    assert((10 * n + 4) * w == 10 * n * w + 4 * w) by (nonlinear_arith);
    assert(size(cf + rest - w) * PARTS <= 4 * w);
}

/// The sum of the ratios is close to their exact sum.
proof fn lemma_ratio_sum(f: Oracle, ema: Seq<Real>, active: Seq<bool>)
    requires
        active.len() <= ema.len(),
        active.len() < 0x20_0000_0000_0000,
        evidence_is_finite(ema, active),
        exp_is_monotone(f),
    ensures
        ({
            let ratios = evidence_ratios(f, ema, active);
            let s = sum_of_seq(ratios).value();
            size(exact_sum(ratios) - s) * PARTS <= active.len() * (4 * s)
        }),
{
    let w = pow2(1074) as int;
    let ratios = evidence_ratios(f, ema, active);
    lemma_pow2_pos(1074);
    lemma_whole(0);
    lemma_whole(1);
    assert(0 * w == 0 && 1 * w == w);
    lemma_ratios(f, ema, active);
    let a = sizes(ratios);
    assert(sizes(a) =~= a);
    assert forall|i: int| 0 <= i < a.len() implies Real::whole(0) <= (#[trigger] a[i]) && a[i]
        <= Real::whole(1) && a[i].finite() by {
        assert(ratios[i].finite());
    }
    lemma_sum_of_units(a);
    assert forall|i: int| 0 <= i < a.len() implies (#[trigger] ratios[i]).finite()
        && ratios[i].value() == a[i].value() by {
        assert(Real::whole(0) <= ratios[i]);
        lemma_units_zero(ratios[i].mag());
    }
    lemma_same_sum(a, ratios);
    let g = sum_of_seq(a).value();
    let one = Real::whole(1);
    assert forall|i: int| 0 <= i < ratios.len() implies near_product(
        #[trigger] ratios[i],
        ratios[i],
        one,
        0,
        0,
    ) by {
        assert(ratios[i].finite());
        assert(0 * (size(ratios[i].value()) * w) == 0 && 0 * (w * PARTS) == 0) by (nonlinear_arith);
    }
    lemma_scaled_sum(ratios, ratios, one, g, 0, 0);
    let d = exact_sum(ratios) - g;
    let n = active.len() as int;
    assert(exact_sum(ratios) * w - w * g == d * w) by (nonlinear_arith)
        requires
            d == exact_sum(ratios) - g,
    ;
    assert(0 * PARTS + (2 * 0 + 4) * g == 4 * g);
    assert(size(d) * PARTS <= n * (4 * g)) by (nonlinear_arith)
        requires
            size(d * w) * PARTS <= n * (w * (4 * g)),
            w > 0,
    ;
}

proof fn lemma_active_count(active: Seq<bool>, n: nat)
    requires
        n <= active.len(),
    ensures
        active_among(active, n) <= n,
    decreases n,
{
    if n > 0 {
        lemma_active_count(active, (n - 1) as nat);
    }
}

proof fn lemma_active_exists(active: Seq<bool>, n: nat, i: int)
    requires
        n <= active.len(),
        0 <= i < n,
        active[i],
    ensures
        active_among(active, n) >= 1,
    decreases n,
{
    if i < n - 1 {
        lemma_active_exists(active, (n - 1) as nat, i);
    }
}

/// The floors of all active sources add up to a number.
proof fn lemma_floors(floor: Real, k: usize)
    requires
        Real::whole(0) <= floor,
        floor.finite(),
    ensures
        Real::whole(0) <= floor * Real::count(k),
{
    lemma_count_order(k, k);
    lemma_mul_monotone(Real::count(k), Real::count(k), floor);
}

/// An equal share is a number.
proof fn lemma_share_number(k: usize)
    ensures
        !(Real::whole(1) / Real::count(k)).nan(),
{
    lemma_share(k);
}

} // verus!
