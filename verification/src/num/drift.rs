//! How far rounding carries numbers from what they stand for.
use vstd::arithmetic::div_mod::*;
use vstd::arithmetic::power2::*;
use vstd::prelude::*;

use crate::num::magnitude::{lemma_round_zero, lemma_units_zero};
use crate::num::model::{
    mag_units, nearest_even, round_mag, ulp_exponent, Real, BINADE, INF_MAG,
};
use crate::num::ops::{lemma_order_key, lemma_round_exact};
use crate::num::order::{
    lemma_round_bound, lemma_round_monotone, lemma_units_order, lemma_whole,
};
use crate::num::rounding::lemma_ulp_exponent_bounds;
use crate::num::series::sum_of_seq;

verus! {

/// `2^53`: rounding changes a sum by at most one part in this many.
pub const PARTS: u64 = 0x20_0000_0000_0000;

/// The absolute value of an integer.
pub open spec fn size(x: int) -> int {
    if x < 0 {
        -x
    } else {
        x
    }
}

/// Rounding to an integer strays by at most one half.
proof fn lemma_nearest_close(n: nat, d: nat)
    requires
        d > 0,
    ensures
        2 * size(nearest_even(n, d) * d - n) <= d,
{
    let (q, r) = (n / d, n % d);
    lemma_fundamental_div_mod(n as int, d as int);
    lemma_mod_bound(n as int, d as int);
    assert((q + 1) * d == q * d + d) by (nonlinear_arith);
    assert(n == q * d + r) by (nonlinear_arith)
        requires
            n == d * q + r,
    ;
}

/// The magnitude that a significand and an exponent compose.
pub proof fn lemma_compose(k: nat, m: nat)
    requires
        m <= PARTS,
        k > 0 ==> m >= BINADE,
    ensures
        mag_units((k * BINADE + m) as nat) == m * pow2(k),
{
    reveal(mag_units);
    lemma2_to64();
    let b = (k * BINADE + m) as nat;
    if m >= BINADE {
        if m == PARTS {
            assert(b == (k + 2) * BINADE) by (nonlinear_arith)
                requires
                    b == k * BINADE + 2 * BINADE,
            ;
            lemma_fundamental_div_mod_converse(b as int, BINADE as int, (k + 2) as int, 0);
            lemma_pow2_unfold((k + 1) as nat);
            assert(b - (k + 1) * BINADE == BINADE) by (nonlinear_arith)
                requires
                    b == (k + 2) * BINADE,
            ;
            assert(BINADE * (2 * pow2(k)) == m * pow2(k)) by (nonlinear_arith)
                requires
                    m == 2 * BINADE,
            ;
        } else {
            assert(b == BINADE * (k + 1) + (m - BINADE)) by (nonlinear_arith)
                requires
                    b == k * BINADE + m,
            ;
            lemma_fundamental_div_mod_converse(
                b as int,
                BINADE as int,
                (k + 1) as int,
                m - BINADE,
            );
        }
    }
}

/// A magnitude is rounded to within half a unit in its last place.
pub proof fn lemma_round_close(n: nat, d: nat)
    requires
        d > 0,
        round_mag(n, d) < INF_MAG,
    ensures
        size(mag_units(round_mag(n, d)) * d - n) * PARTS <= n + d * BINADE,
        d == 1 ==> size(mag_units(round_mag(n, d)) - n) * PARTS <= n,
{
    reveal(round_mag);
    lemma2_to64();
    lemma2_to64_rest();
    let k = ulp_exponent(n, d);
    lemma_ulp_exponent_bounds(n, d);
    let p = pow2(k);
    lemma_pow2_pos(k);
    let e = d * p;
    assert(e > 0) by (nonlinear_arith)
        requires
            e == d * p,
            d > 0,
            p > 0,
    ;
    let m = nearest_even(n, e);
    lemma_nearest_close(n, e);
    let t = m * e - n;
    assert(m <= PARTS) by (nonlinear_arith)
        requires
            n < d * pow2(53) * p,
            pow2(53) == PARTS,
            e == d * p,
            2 * size(m * e - n) <= e,
            e > 0,
    ;
    if k > 0 {
        let h = pow2((k - 1) as nat);
        lemma_pow2_unfold(k);
        assert(n >= e * BINADE) by (nonlinear_arith)
            requires
                n >= d * pow2(53) * h,
                pow2(53) == 2 * BINADE,
                p == 2 * h,
                e == d * p,
        ;
        assert(m >= BINADE) by (nonlinear_arith)
            requires
                n >= e * BINADE,
                2 * size(m * e - n) <= e,
                e > 0,
        ;
    }
    lemma_compose(k, m);
    assert((m * p) * d == m * e) by (nonlinear_arith)
        requires
            e == d * p,
    ;
    assert(size(t) * PARTS <= e * BINADE) by (nonlinear_arith)
        requires
            2 * size(t) <= e,
            PARTS == 2 * BINADE,
    ;
    if k == 0 {
        assert(e == d) by (nonlinear_arith)
            requires
                e == d * p,
                p == 1,
        ;
    }
    if d == 1 {
        assert((m * p) * d == m * p) by (nonlinear_arith)
            requires
                d == 1,
        ;
        if k == 0 {
            assert(t == 0);
        }
    }
}

/// What a sum of finite numbers is.
pub proof fn lemma_add_mag(x: Real, y: Real)
    requires
        x.finite(),
        y.finite(),
    ensures
        (x + y).mag() == round_mag(size(x.value() + y.value()) as nat, 1),
        (x + y).mag() <= INF_MAG,
        (x + y).value() == if x.value() + y.value() < 0 {
            -(mag_units((x + y).mag()) as int)
        } else {
            mag_units((x + y).mag()) as int
        },
{
    reveal(Real::spec_add);
    let s = x.value() + y.value();
    lemma_round_bound(size(s) as nat, 1);
    lemma_round_zero(1);
    lemma_units_zero(0);
}

/// A sum is within one part in `PARTS` of the exact sum.
pub proof fn lemma_add_close(x: Real, y: Real)
    requires
        x.finite(),
        y.finite(),
        (x + y).finite(),
    ensures
        size((x + y).value() - (x.value() + y.value())) * PARTS <= size(x.value() + y.value()),
{
    lemma_add_mag(x, y);
    lemma_round_close(size(x.value() + y.value()) as nat, 1);
}

/// Multiplying by a factor between zero and one: the product is no larger, and
/// strays by one part in `PARTS` and half a least unit.
pub proof fn lemma_mul_shrinks(a: Real, s: Real)
    requires
        a.finite(),
        s.finite(),
        0 <= s.value() <= pow2(1074),
    ensures
        (a * s).finite(),
        size((a * s).value()) <= size(a.value()),
        size((a * s).value() * pow2(1074) - a.value() * s.value()) * PARTS <= size(
            a.value() * s.value(),
        ) + pow2(1074) * BINADE,
        a.value() >= 0 ==> (a * s).value() >= 0,
        a.value() <= 0 ==> (a * s).value() <= 0,
        (a * s).mag() <= a.mag(),
{
    reveal(Real::spec_mul);
    let w = pow2(1074);
    lemma_pow2_pos(1074);
    let (u, v) = (mag_units(a.mag()), mag_units(s.mag()));
    let n = u * v;
    lemma_units_zero(s.mag());
    lemma_units_zero(a.mag());
    assert(v == s.value());
    assert(n * 1 <= u * w) by (nonlinear_arith)
        requires
            n == u * v,
            v <= w,
    ;
    lemma_round_monotone(n, w, u, 1);
    lemma_round_exact(a.mag());
    let b = round_mag(n, w);
    lemma_units_order(b, a.mag());
    lemma_round_close(n, w);
    let r = mag_units(b);
    let p = a * s;
    if s.negative() {
        assert(n == 0) by (nonlinear_arith)
            requires
                n == u * v,
                v == 0,
        ;
        lemma_round_zero(w);
        lemma_units_zero(0);
        assert(a.value() * s.value() == 0) by (nonlinear_arith)
            requires
                s.value() == 0,
        ;
        assert(p.value() * w == 0) by (nonlinear_arith)
            requires
                p.value() == 0,
        ;
    } else {
        assert(p.negative() == a.negative());
        if a.negative() {
            assert(p.value() == -r);
            assert(a.value() * s.value() == -n) by (nonlinear_arith)
                requires
                    a.value() == -u,
                    s.value() == v,
                    n == u * v,
            ;
            assert(p.value() * w == -(r * w)) by (nonlinear_arith)
                requires
                    p.value() == -r,
            ;
        } else {
            assert(p.value() == r);
            assert(a.value() * s.value() == n);
        }
    }
}

/// Multiplying by one changes no value.
pub proof fn lemma_mul_one(a: Real)
    requires
        a.finite(),
    ensures
        (a * Real::whole(1)).value() == a.value(),
        (a * Real::whole(1)).finite(),
{
    let s = Real::whole(1);
    lemma_whole(1);
    reveal(Real::spec_mul);
    let w = pow2(1074);
    lemma_pow2_pos(1074);
    let u = mag_units(a.mag());
    lemma_round_exact(a.mag());
    assert(u * w * 1 <= u * w && u * w <= (u * w) * 1);
    lemma_round_monotone(u * w, w, u, 1);
    lemma_round_monotone(u, 1, u * w, w);
}

/// The product of numbers that are not negative strays by one part in `PARTS`
/// and half a least unit.
pub proof fn lemma_mul_close(x: Real, y: Real)
    requires
        (x * y).finite(),
        x.value() >= 0,
        y.value() >= 0,
    ensures
        x.finite(),
        y.finite(),
        (x * y).value() >= 0,
        size((x * y).value() * pow2(1074) - x.value() * y.value()) * PARTS <= x.value() * y.value()
            + pow2(1074) * BINADE,
{
    reveal(Real::spec_mul);
    lemma_pow2_pos(1074);
    lemma_units_zero(x.mag());
    lemma_units_zero(y.mag());
    lemma_units_zero(0);
    let n = mag_units(x.mag()) * mag_units(y.mag());
    lemma_round_bound(n, pow2(1074));
    lemma_round_close(n, pow2(1074));
    if x.negative() || y.negative() {
        assert(n == 0) by (nonlinear_arith)
            requires
                n == mag_units(x.mag()) * mag_units(y.mag()),
                mag_units(x.mag()) == 0 || mag_units(y.mag()) == 0,
        ;
        lemma_round_zero(pow2(1074));
    }
    assert(x.value() * y.value() == n);
}

/// The difference of two numbers between zero and one lies between minus one and
/// one.
pub proof fn lemma_unit_difference(a: Real, b: Real)
    requires
        Real::whole(0) <= a,
        a <= Real::whole(1),
        Real::whole(0) <= b,
        b <= Real::whole(1),
    ensures
        Real::whole(1).neg() <= a - b,
        a - b <= Real::whole(1),
{
    lemma_whole(0);
    lemma_whole(1);
    let one = Real::whole(1);
    assert(0 * pow2(1074) == 0);
    lemma_units_zero(a.mag());
    lemma_units_zero(b.mag());
    lemma_order_key(a, one);
    lemma_order_key(b, one);
    let s = a.value() - b.value();
    lemma_add_mag(a, b.neg());
    lemma_round_monotone(size(s) as nat, 1, one.value() as nat, 1);
    lemma_round_exact(one.mag());
    lemma_units_order((a - b).mag(), one.mag());
}

/// The quotient of a number that is not negative and a positive one strays by
/// one part in `PARTS` and half a least unit.
pub proof fn lemma_div_close(x: Real, y: Real)
    requires
        (x / y).finite(),
        x.value() >= 0,
        y.value() > 0,
        y.finite(),
    ensures
        x.finite(),
        (x / y).value() >= 0,
        size((x / y).value() * y.value() - x.value() * pow2(1074)) * PARTS <= x.value() * pow2(1074)
            + y.value() * BINADE,
{
    reveal(Real::spec_div);
    lemma_pow2_pos(1074);
    lemma_units_zero(x.mag());
    lemma_units_zero(y.mag());
    lemma_units_zero(0);
    let n = mag_units(x.mag()) * pow2(1074);
    let d = mag_units(y.mag());
    lemma_round_bound(n, d);
    lemma_round_close(n, d);
    if x.negative() {
        assert(n == 0) by (nonlinear_arith)
            requires
                n == mag_units(x.mag()) * pow2(1074),
                mag_units(x.mag()) == 0,
        ;
        lemma_round_zero(d);
    }
}

/// The quotient of a number that is not negative and a larger one is at most
/// one.
pub proof fn lemma_quotient(l: Real, x: Real)
    requires
        Real::whole(0) <= l,
        l < x,
        x.finite(),
    ensures
        (l / x).finite(),
        0 <= (l / x).value() <= pow2(1074),
{
    reveal(Real::spec_div);
    lemma_whole(0);
    lemma_whole(1);
    let w = pow2(1074);
    lemma_pow2_pos(1074);
    assert(0 * w == 0);
    let (u, v) = (mag_units(l.mag()), mag_units(x.mag()));
    lemma_units_zero(x.mag());
    lemma_units_zero(l.mag());
    lemma_units_zero(0);
    assert(l.finite()) by {
        if !l.finite() {
            lemma_units_order(x.mag(), l.mag());
        }
    }
    let one = Real::whole(1).mag();
    lemma_round_exact(one);
    assert(1 * w == w);
    assert((u * w) * 1 <= w * v) by (nonlinear_arith)
        requires
            u <= v,
            w > 0,
    ;
    lemma_round_monotone(u * w, v, w, 1);
    lemma_units_order(round_mag(u * w, v), one);
    if l.negative() {
        assert(u * w == 0) by (nonlinear_arith)
            requires
                u == 0,
        ;
        lemma_round_zero(v);
    }
}

/// A number less a larger one is at most zero.
pub proof fn lemma_difference(a: Real, b: Real)
    requires
        a <= b,
        a.finite(),
        b.finite(),
    ensures
        !(a - b).nan(),
        a - b <= Real::whole(0),
{
    lemma_add_mag(a, b.neg());
    lemma_whole(0);
    lemma_units_zero(0);
    if a.value() == b.value() {
        lemma_round_zero(1);
    }
}

/// A number less itself is zero.
pub proof fn lemma_cancels(a: Real)
    requires
        a.finite(),
    ensures
        a - a == Real::whole(0),
{
    reveal(Real::spec_add);
    lemma_round_zero(1);
    assert(0 * pow2(1074) == 0);
}

/// The quotient of a number that is not negative and one at least as large is at
/// most one.
pub proof fn lemma_at_most_one(a: Real, c: Real)
    requires
        Real::whole(0) <= a,
        a <= c,
        a.finite(),
        Real::whole(0) < c,
    ensures
        (a / c).finite(),
        a / c <= Real::whole(1),
{
    lemma_whole(0);
    lemma_whole(1);
    let w = pow2(1074);
    lemma_pow2_pos(1074);
    assert(0 * w == 0 && 1 * w == w);
    if a < c && c.finite() {
        lemma_quotient(a, c);
    } else {
        reveal(Real::spec_div);
        lemma_units_zero(c.mag());
        lemma_units_zero(a.mag());
        lemma_units_zero(0);
        if c.finite() {
            lemma_order_key(a, c);
            let u = mag_units(c.mag());
            let one = Real::whole(1).mag();
            lemma_round_exact(one);
            assert((u * w) * 1 <= w * u) by (nonlinear_arith);
            lemma_round_monotone(u * w, u, w, 1);
            lemma_units_order(round_mag(u * w, u), one);
        }
    }
}

/// The magnitudes of a sequence.
pub open spec fn sizes(s: Seq<Real>) -> Seq<Real> {
    s.map_values(|x: Real| x.abs())
}

/// The exact sum of a sequence, in least units.
pub open spec fn exact_sum(s: Seq<Real>) -> int
    decreases s.len(),
{
    if s.len() == 0 {
        0
    } else {
        exact_sum(s.drop_last()) + s.last().value()
    }
}

/// `y` is close to the product of `x` and the factor `s`, and no larger than
/// `x`: it strays by `c` parts in `PARTS` of `x` and `h` least units.
pub open spec fn near_product(y: Real, x: Real, s: Real, c: nat, h: nat) -> bool {
    &&& y.finite()
    &&& size(y.value()) <= size(x.value())
    &&& size(y.value() * pow2(1074) - x.value() * s.value()) * PARTS <= c * (size(x.value())
        * pow2(1074)) + h * (pow2(1074) * PARTS)
}

/// The elements of `b` are close to those of `a` multiplied by `s`.
pub open spec fn is_scaled(b: Seq<Real>, a: Seq<Real>, s: Real, c: nat, h: nat) -> bool {
    &&& b.len() == a.len()
    &&& forall|i: int| 0 <= i < a.len() ==> near_product(#[trigger] b[i], a[i], s, c, h)
}

/// What `n` elements may add to the distance between the sum of the multiples
/// and the multiple of the sum.
spec fn allowance(n: nat, w: int, g: int, c: nat, h: nat) -> int {
    n * (w * (h * PARTS + (2 * c + 4) * g))
}

/// One more element of a sum and of the sum of the multiples: what the new
/// rounding errors add.
proof fn lemma_step(
    w: int,
    f: int,
    g: int,
    n: int,
    x: int,
    n1: int,
    m: int,
    y: int,
    m1: int,
    e: int,
    k: nat,
    c: nat,
    h: nat,
)
    requires
        0 <= f <= w,
        0 < w,
        0 <= g,
        size(m * w - f * n) * PARTS <= allowance(k, w, g, c, h),
        size(e * w - f * n) * PARTS <= allowance(k, w, g, c, h),
        size(x) <= 2 * g,
        size(n1 - (n + x)) * PARTS <= 2 * g,
        size(m1 - (m + y)) * PARTS <= 2 * g,
        size(y * w - x * f) * PARTS <= c * (size(x) * w) + h * (w * PARTS),
    ensures
        size(m1 * w - f * n1) * PARTS <= allowance(k + 1, w, g, c, h),
        size((e + y) * w - f * n1) * PARTS <= allowance(k + 1, w, g, c, h),
{
    let (d1, d2, d3) = (m1 - (m + y), n1 - (n + x), y * w - x * f);
    let old_m = m * w - f * n;
    let old_e = e * w - f * n;
    assert(m1 * w - f * n1 == old_m + d3 + d1 * w - d2 * f) by (nonlinear_arith)
        requires
            d1 == m1 - (m + y),
            d2 == n1 - (n + x),
            d3 == y * w - x * f,
            old_m == m * w - f * n,
    ;
    assert((e + y) * w - f * n1 == old_e + d3 - d2 * f) by (nonlinear_arith)
        requires
            d2 == n1 - (n + x),
            d3 == y * w - x * f,
            old_e == e * w - f * n,
    ;
    let gw = g * w;
    assert(size(d1 * w) * PARTS <= 2 * gw) by (nonlinear_arith)
        requires
            size(d1) * PARTS <= 2 * g,
            w > 0,
            gw == g * w,
    ;
    assert(size(d2 * f) * PARTS <= 2 * gw) by (nonlinear_arith)
        requires
            size(d2) * PARTS <= 2 * g,
            0 <= f <= w,
            g >= 0,
            gw == g * w,
    ;
    assert(size(x) * w <= 2 * gw) by (nonlinear_arith)
        requires
            size(x) <= 2 * g,
            w > 0,
            gw == g * w,
    ;
    assert(c * (size(x) * w) <= 2 * (c * gw)) by (nonlinear_arith)
        requires
            size(x) * w <= 2 * gw,
            c >= 0,
    ;
    let z = w * (h * PARTS + (2 * c + 4) * g);
    assert((k + 1) * z == k * z + z) by (nonlinear_arith);
    assert(z == h * (w * PARTS) + 2 * (c * gw) + 4 * gw) by (nonlinear_arith)
        requires
            z == w * (h * PARTS + (2 * c + 4) * g),
            gw == g * w,
    ;
}

/// Where the magnitudes have a finite sum, the numbers are finite, and so is
/// their sum, which is no larger.
pub proof fn lemma_sum_size(a: Seq<Real>)
    requires
        sum_of_seq(sizes(a)).finite(),
    ensures
        forall|i: int| 0 <= i < a.len() ==> (#[trigger] a[i]).finite(),
        sum_of_seq(a).finite(),
        size(sum_of_seq(a).value()) <= sum_of_seq(sizes(a)).value(),
    decreases a.len(),
{
    lemma_units_zero(0);
    if a.len() > 0 {
        let a0 = a.drop_last();
        let x = a.last();
        lemma_last_size(a);
        lemma_sum_size(a0);
        assert forall|i: int| 0 <= i < a.len() implies (#[trigger] a[i]).finite() by {
            if i < a0.len() {
                assert(a0[i].finite());
            }
        }
        let (n, p0) = (sum_of_seq(a0), sum_of_seq(sizes(a0)));
        lemma_add_mag(p0, x.abs());
        lemma_add_mag(n, x);
        lemma_round_monotone(
            size(n.value() + x.value()) as nat,
            1,
            (p0.value() + x.abs().value()) as nat,
            1,
        );
        lemma_units_order((n + x).mag(), (p0 + x.abs()).mag());
    }
}

/// The sum of multiples of numbers is the multiple of their sum, up to rounding.
pub proof fn lemma_scaled_sum(a: Seq<Real>, b: Seq<Real>, s: Real, g: int, c: nat, h: nat)
    requires
        is_scaled(b, a, s, c, h),
        0 <= s.value() <= pow2(1074),
        sum_of_seq(sizes(a)).finite(),
        sum_of_seq(sizes(a)).value() <= g,
    ensures
        sum_of_seq(b).finite(),
        size(sum_of_seq(b).value()) <= sum_of_seq(sizes(a)).value(),
        size(sum_of_seq(b).value() * pow2(1074) - s.value() * sum_of_seq(a).value()) * PARTS
            <= a.len() * (pow2(1074) * (h * PARTS + (2 * c + 4) * g)),
        size(exact_sum(b) * pow2(1074) - s.value() * sum_of_seq(a).value()) * PARTS <= a.len() * (
        pow2(1074) * (h * PARTS + (2 * c + 4) * g)),
    decreases a.len(),
{
    let w = pow2(1074) as int;
    lemma_pow2_pos(1074);
    lemma_units_zero(0);
    let f = s.value();
    if a.len() == 0 {
        assert(sum_of_seq(a).value() == 0 && sum_of_seq(b).value() == 0);
        assert(f * 0 == 0 && 0 * w == 0) by (nonlinear_arith);
        assert(0 * (w * (h * PARTS + (2 * c + 4) * g)) == 0) by (nonlinear_arith);
    } else {
        let (a0, b0) = (a.drop_last(), b.drop_last());
        let (x, y) = (a.last(), b.last());
        let p = sum_of_seq(sizes(a));
        let p0 = sum_of_seq(sizes(a0));
        lemma_last_size(a);
        assert(near_product(b[a.len() - 1], a[a.len() - 1], s, c, h));
        assert(is_scaled(b0, a0, s, c, h)) by {
            assert forall|i: int| 0 <= i < a0.len() implies near_product(
                #[trigger] b0[i],
                a0[i],
                s,
                c,
                h,
            ) by {
                assert(near_product(b[i], a[i], s, c, h));
            }
        }
        lemma_scaled_sum(a0, b0, s, g, c, h);
        let (n, n1) = (sum_of_seq(a0), sum_of_seq(a));
        let (m, m1) = (sum_of_seq(b0), sum_of_seq(b));
        assert(n1 == n + x && m1 == m + y);
        lemma_sum_size(a0);
        lemma_sum_size(a);
        lemma_add_mag(p0, x.abs());
        lemma_add_close(p0, x.abs());
        let t = p0.value() + size(x.value());
        assert(t <= 2 * p.value());
        lemma_add_mag(m, y);
        lemma_round_monotone(size(m.value() + y.value()) as nat, 1, t as nat, 1);
        lemma_units_order(m1.mag(), p.mag());
        lemma_add_close(n, x);
        lemma_add_close(m, y);
        lemma_step(
            w,
            f,
            g,
            n.value(),
            x.value(),
            n1.value(),
            m.value(),
            y.value(),
            m1.value(),
            exact_sum(b0),
            a0.len(),
            c,
            h,
        );
    }
}

/// The last step of a finite sum of magnitudes: its parts are finite and no
/// larger.
pub proof fn lemma_last_size(a: Seq<Real>)
    requires
        a.len() > 0,
        sum_of_seq(sizes(a)).finite(),
    ensures
        a.last().finite(),
        sum_of_seq(sizes(a.drop_last())).finite(),
        sum_of_seq(sizes(a)) == sum_of_seq(sizes(a.drop_last())) + a.last().abs(),
        0 <= sum_of_seq(sizes(a.drop_last())).value() <= sum_of_seq(sizes(a)).value(),
{
    let a0 = a.drop_last();
    let x = a.last();
    assert(sizes(a).drop_last() =~= sizes(a0));
    assert(sizes(a).last() == x.abs());
    let (p0, p) = (sum_of_seq(sizes(a0)), sum_of_seq(sizes(a)));
    assert(p0.finite() && x.abs().finite()) by {
        reveal(Real::spec_add);
    }
    lemma_size_sum(a0);
    lemma_add_mag(p0, x.abs());
    lemma_round_exact(p0.mag());
    lemma_round_monotone(p0.value() as nat, 1, (p0.value() + x.abs().value()) as nat, 1);
    lemma_units_order(p0.mag(), p.mag());
}

/// Numbers of equal value have sums of equal value.
pub proof fn lemma_same_sum(a: Seq<Real>, b: Seq<Real>)
    requires
        a.len() == b.len(),
        sum_of_seq(sizes(a)).finite(),
        forall|i: int|
            0 <= i < a.len() ==> (#[trigger] b[i]).finite() && b[i].value() == a[i].value(),
    ensures
        sum_of_seq(b).finite(),
        sum_of_seq(b).value() == sum_of_seq(a).value(),
    decreases a.len(),
{
    if a.len() > 0 {
        let (a0, b0) = (a.drop_last(), b.drop_last());
        lemma_last_size(a);
        assert forall|i: int| 0 <= i < a0.len() implies (#[trigger] b0[i]).finite()
            && b0[i].value() == a0[i].value() by {
            assert(b[i].finite());
        }
        lemma_same_sum(a0, b0);
        lemma_sum_size(a0);
        lemma_sum_size(a);
        assert(b[a.len() - 1].finite());
        lemma_add_mag(sum_of_seq(a0), a.last());
        lemma_add_mag(sum_of_seq(b0), b.last());
    }
}

/// A sum of magnitudes is not negative.
pub proof fn lemma_size_sum(a: Seq<Real>)
    requires
        sum_of_seq(sizes(a)).finite(),
    ensures
        0 <= sum_of_seq(sizes(a)).value(),
    decreases a.len(),
{
    lemma_units_zero(0);
    if a.len() > 0 {
        let a0 = a.drop_last();
        let x = a.last();
        assert(sizes(a).drop_last() =~= sizes(a0));
        assert(sizes(a).last() == x.abs());
        let p0 = sum_of_seq(sizes(a0));
        assert(p0.finite() && x.abs().finite()) by {
            reveal(Real::spec_add);
        }
        lemma_size_sum(a0);
        lemma_add_mag(p0, x.abs());
    }
}

/// Twice a magnitude is a magnitude.
proof fn lemma_double(b: nat) -> (r: nat)
    requires
        b + BINADE < INF_MAG,
    ensures
        r <= b + BINADE,
        mag_units(r) == 2 * mag_units(b),
{
    reveal(mag_units);
    lemma2_to64();
    if b < BINADE {
        let r = 2 * b;
        lemma_compose(0, r);
        lemma_compose(0, b);
        assert(r * 1 == 2 * (b * 1));
        assert(0 * BINADE + r == r && 0 * BINADE + b == b);
        r
    } else {
        let r = (b + BINADE) as nat;
        crate::num::magnitude::lemma_split(b);
        let k = crate::num::model::mag_exponent(b);
        let m = crate::num::model::mag_significand(b);
        assert(b / (BINADE as nat) >= 1) by (nonlinear_arith)
            requires
                b >= BINADE,
        ;
        assert(m >= BINADE) by {
            lemma_fundamental_div_mod(b as int, BINADE as int);
            assert((k + 1) * BINADE == k * BINADE + BINADE) by (nonlinear_arith);
            assert(b == BINADE * (k + 1) + b % (BINADE as nat));
        }
        assert((k + 1) * BINADE + m == r) by (nonlinear_arith)
            requires
                b == k * BINADE + m,
                r == b + BINADE,
        ;
        lemma_compose(k + 1, m);
        lemma_pow2_unfold((k + 1) as nat);
        assert(m * (2 * pow2(k)) == 2 * (m * pow2(k))) by (nonlinear_arith);
        r
    }
}

/// Sixty-four times a magnitude of at most one is rounded to itself.
pub proof fn lemma_sixty_four(b: nat)
    requires
        b <= Real::whole(1).mag(),
    ensures
        round_mag(64 * mag_units(b), 1) < INF_MAG,
        mag_units(round_mag(64 * mag_units(b), 1)) == 64 * mag_units(b),
{
    lemma_whole(1);
    lemma_one_bits();
    let b1 = lemma_double(b);
    let b2 = lemma_double(b1);
    let b3 = lemma_double(b2);
    let b4 = lemma_double(b3);
    let b5 = lemma_double(b4);
    let b6 = lemma_double(b5);
    lemma_round_exact(b6);
}

/// The pattern of one.
pub proof fn lemma_one_bits()
    ensures
        Real::whole(1).bits == 0x3ff0_0000_0000_0000,
{
    lemma_whole(1);
    let b = 0x3ff0_0000_0000_0000nat;
    lemma2_to64();
    lemma2_to64_rest();
    lemma_pow2_adds(52, 1022);
    assert(mag_units(b) == pow2(1074)) by {
        reveal(mag_units);
        lemma_fundamental_div_mod_converse(b as int, BINADE as int, 1023, 0);
    }
    lemma_round_exact(b);
    assert(1 * pow2(1074) == pow2(1074));
}

/// The order of the operands of a product does not matter.
pub proof fn lemma_mul_commutes(a: Real, b: Real)
    ensures
        a * b == b * a,
{
    reveal(Real::spec_mul);
    assert(mag_units(a.mag()) * mag_units(b.mag()) == mag_units(b.mag()) * mag_units(a.mag()))
        by (nonlinear_arith);
}

} // verus!
