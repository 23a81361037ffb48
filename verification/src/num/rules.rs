//! Rules of calculation that rounding does not break, and how far it goes where it
//! does.
use vstd::arithmetic::div_mod::lemma_div_by_multiple;
use vstd::arithmetic::power2::*;
use vstd::prelude::*;

use crate::num::drift::{
    exact_sum, lemma_add_close, lemma_add_mag, lemma_compose, lemma_mul_close, lemma_mul_shrinks,
    lemma_one_bits, lemma_round_close, lemma_scaled_sum, lemma_sum_size, near_product, size, sizes,
    PARTS,
};
use crate::num::magnitude::{
    lemma_floor_root, lemma_root_exponent, lemma_round_zero, lemma_split, lemma_units_zero,
};
use crate::num::model::{
    floor_root, mag_exponent, mag_significand, mag_units, root_exponent, root_mag, round_mag,
    BINADE, INF_MAG,
};
use crate::num::ops::{lemma_order_key, lemma_round_exact};
use crate::num::order::{
    lemma_add_commutes, lemma_add_grows, lemma_add_monotone, lemma_add_not_negative, lemma_halves,
    lemma_mul_monotone, lemma_neg_order, lemma_round_bound, lemma_round_monotone,
    lemma_units_order, lemma_whole,
};
use crate::num::series::sum_of_seq;
use crate::num::Real;

verus! {

/// Two numbers with the same value are the same, unless they are zeros.
pub proof fn lemma_same_value(a: Real, b: Real)
    requires
        !a.nan(),
        !b.nan(),
        a.value() == b.value(),
        a.value() != 0,
    ensures
        a == b,
{
    lemma_order_key(a, b);
    lemma_units_zero(a.mag());
    lemma_units_zero(b.mag());
}

/// A number between two finite numbers is finite.
pub proof fn lemma_between(lo: Real, x: Real, hi: Real)
    requires
        lo.finite(),
        hi.finite(),
        lo <= x,
        x <= hi,
    ensures
        x.finite(),
{
    lemma_order_key(lo, x);
    lemma_order_key(x, hi);
}

/// A value is zero for zeros only.
pub proof fn lemma_zero_value(a: Real)
    requires
        !a.nan(),
    ensures
        a.value() == 0 <==> a.zero(),
        a.neg().value() == -a.value(),
        !a.neg().nan(),
        a.neg().neg() == a,
        a.abs().value() == size(a.value()),
        !a.abs().nan(),
{
    lemma_units_zero(a.mag());
}

/// Multiplying by one changes nothing.
pub proof fn lemma_times_one(a: Real)
    requires
        !a.nan(),
    ensures
        a * Real::whole(1) == a,
        Real::whole(1) * a == a,
{
    lemma_whole(1);
    reveal(Real::spec_mul);
    let w = pow2(1074);
    lemma_pow2_pos(1074);
    assert(1 * w == w);
    lemma_units_zero(Real::whole(1).mag());
    if a.finite() {
        let u = mag_units(a.mag());
        lemma_round_exact(a.mag());
        assert(u * w == w * u) by (nonlinear_arith);
        lemma_round_monotone(u * w, w, u, 1);
        lemma_round_monotone(u, 1, u * w, w);
    }
}

/// Dividing by one changes nothing.
pub proof fn lemma_over_one(a: Real)
    requires
        !a.nan(),
    ensures
        a / Real::whole(1) == a,
{
    lemma_whole(1);
    reveal(Real::spec_div);
    let w = pow2(1074);
    lemma_pow2_pos(1074);
    assert(1 * w == w);
    lemma_units_zero(Real::whole(1).mag());
    if a.finite() {
        let u = mag_units(a.mag());
        lemma_round_exact(a.mag());
        assert(u * w == w * u) by (nonlinear_arith);
        lemma_round_monotone(u * w, w, u, 1);
        lemma_round_monotone(u, 1, u * w, w);
    }
}

/// A number over itself is one.
pub proof fn lemma_over_itself(a: Real)
    requires
        a.finite(),
        a.value() != 0,
    ensures
        a / a == Real::whole(1),
{
    lemma_whole(1);
    reveal(Real::spec_div);
    let w = pow2(1074);
    lemma_pow2_pos(1074);
    assert(1 * w == w);
    lemma_units_zero(a.mag());
    let u = mag_units(a.mag());
    let one = Real::whole(1);
    lemma_round_exact(one.mag());
    assert(u * w == w * u) by (nonlinear_arith);
    lemma_round_monotone(u * w, u, w, 1);
    lemma_round_monotone(w, 1, u * w, u);
}

/// Adding a zero changes no value.
pub proof fn lemma_plus_zero(a: Real, z: Real)
    requires
        !a.nan(),
        z.zero(),
    ensures
        !(a + z).nan(),
        (a + z).value() == a.value(),
        (z + a).value() == a.value(),
        a.value() != 0 ==> a + z == a && z + a == a,
{
    lemma_zero_value(z);
    if a.finite() {
        lemma_add_mag(a, z);
        lemma_zero_value(a);
        lemma_round_exact(a.mag());
        lemma_add_commutes(a, z);
        if a.value() != 0 {
            lemma_same_value(a + z, a);
        } else {
            lemma_round_zero(1);
        }
    } else {
        reveal(Real::spec_add);
    }
}

/// A product with a zero is zero.
pub proof fn lemma_times_zero(a: Real, z: Real)
    requires
        a.finite(),
        z.zero(),
    ensures
        (a * z).zero(),
        (z * a).zero(),
        (a * z).value() == 0,
        (z * a).value() == 0,
{
    reveal(Real::spec_mul);
    lemma_zero_value(z);
    lemma_pow2_pos(1074);
    lemma_round_zero(pow2(1074));
    lemma_units_zero(0);
    assert(mag_units(a.mag()) * 0 == 0) by (nonlinear_arith);
    assert(0 * mag_units(a.mag()) == 0) by (nonlinear_arith);
}

/// Zero over a number that is not is zero.
pub proof fn lemma_zero_over(z: Real, a: Real)
    requires
        z.zero(),
        !a.nan(),
        a.value() != 0,
    ensures
        (z / a).zero(),
        (z / a).value() == 0,
{
    reveal(Real::spec_div);
    lemma_zero_value(z);
    lemma_zero_value(a);
    lemma_units_zero(0);
    if a.finite() {
        lemma_round_zero(mag_units(a.mag()));
        assert(0 * pow2(1074) == 0);
    }
}

/// A finite product strays by one part in `PARTS` and half a least unit, and has
/// the sign that the signs of its factors give.
pub proof fn lemma_product_near(x: Real, y: Real)
    requires
        x.finite(),
        y.finite(),
        (x * y).finite(),
    ensures
        size((x * y).value() * pow2(1074) - x.value() * y.value()) * PARTS <= size(
            x.value() * y.value(),
        ) + pow2(1074) * BINADE,
        x.value() * y.value() >= 0 ==> (x * y).value() >= 0,
        x.value() * y.value() <= 0 ==> (x * y).value() <= 0,
{
    reveal(Real::spec_mul);
    let w = pow2(1074);
    lemma_pow2_pos(1074);
    let (u, v) = (mag_units(x.mag()), mag_units(y.mag()));
    let n = u * v;
    lemma_round_bound(n, w);
    lemma_round_close(n, w);
    let m = mag_units(round_mag(n, w));
    let neg = x.negative() != y.negative();
    assert(x.value() * y.value() == if neg {
        -(n as int)
    } else {
        n as int
    }) by (nonlinear_arith)
        requires
            n == u * v,
            x.value() == if x.negative() { -(u as int) } else { u as int },
            y.value() == if y.negative() { -(v as int) } else { v as int },
            neg == (x.negative() != y.negative()),
    ;
    assert((-(m as int)) * w == -(m * w)) by (nonlinear_arith);
    if n == 0 {
        lemma_round_zero(w);
        lemma_units_zero(0);
    }
}

/// A finite quotient strays by one part in `PARTS` and half a least unit, and has
/// the sign that the signs of its terms give.
pub proof fn lemma_quotient_near(x: Real, y: Real)
    requires
        x.finite(),
        y.finite(),
        y.value() != 0,
        (x / y).finite(),
    ensures
        size((x / y).value() * y.value() - x.value() * pow2(1074)) * PARTS <= size(x.value())
            * pow2(1074) + size(y.value()) * BINADE,
        x.value() * y.value() >= 0 ==> (x / y).value() >= 0,
        x.value() * y.value() <= 0 ==> (x / y).value() <= 0,
{
    reveal(Real::spec_div);
    let w = pow2(1074);
    lemma_pow2_pos(1074);
    lemma_zero_value(y);
    let (u, v) = (mag_units(x.mag()), mag_units(y.mag()));
    let n = u * w;
    lemma_round_bound(n, v);
    lemma_round_close(n, v);
    let m = mag_units(round_mag(n, v));
    let neg = x.negative() != y.negative();
    let q = x / y;
    assert(q.value() == if neg {
        -(m as int)
    } else {
        m as int
    });
    let t = m * v - n;
    assert(size(q.value() * y.value() - x.value() * w) == size(t)) by (nonlinear_arith)
        requires
            t == m * v - u * w,
            q.value() == if neg { -(m as int) } else { m as int },
            x.value() == if x.negative() { -(u as int) } else { u as int },
            y.value() == if y.negative() { -(v as int) } else { v as int },
            neg == (x.negative() != y.negative()),
    ;
    if n == 0 {
        lemma_round_zero(v);
        lemma_units_zero(0);
    }
    if x.value() * y.value() >= 0 && neg {
        assert(u == 0) by (nonlinear_arith)
            requires
                x.value() * y.value() >= 0,
                x.value() == if x.negative() { -(u as int) } else { u as int },
                y.value() == if y.negative() { -(v as int) } else { v as int },
                x.negative() != y.negative(),
                v > 0,
                u >= 0,
        ;
        assert(0 * w == 0);
    }
    if x.value() * y.value() <= 0 && !neg {
        assert(u == 0) by (nonlinear_arith)
            requires
                x.value() * y.value() <= 0,
                x.value() == if x.negative() { -(u as int) } else { u as int },
                y.value() == if y.negative() { -(v as int) } else { v as int },
                x.negative() == y.negative(),
                v > 0,
                u >= 0,
        ;
        assert(0 * w == 0);
    }
}

/// Flipping the sign of a factor flips that of the product.
pub proof fn lemma_negated_factor(x: Real, y: Real)
    requires
        !(x * y).nan(),
    ensures
        x.neg() * y == (x * y).neg(),
        x * y.neg() == (x * y).neg(),
{
    reveal(Real::spec_mul);
    lemma_round_bound(mag_units(x.mag()) * mag_units(y.mag()), pow2(1074));
}

/// Flipping the sign of a term flips that of the quotient.
pub proof fn lemma_negated_term(x: Real, y: Real)
    requires
        !(x / y).nan(),
    ensures
        x.neg() / y == (x / y).neg(),
        x / y.neg() == (x / y).neg(),
{
    reveal(Real::spec_div);
    lemma_round_bound(mag_units(x.mag()) * pow2(1074), mag_units(y.mag()));
}

/// Exchanging the terms of a difference flips the sign of its value.
pub proof fn lemma_swapped_difference(x: Real, y: Real)
    requires
        x.finite(),
        y.finite(),
    ensures
        !(x - y).nan(),
        (y - x).value() == -(x - y).value(),
        x.value() != y.value() ==> y - x == (x - y).neg(),
{
    reveal(Real::spec_add);
    lemma_zero_value(x);
    lemma_zero_value(y);
    let s = x.value() - y.value();
    lemma_round_bound(s as nat, 1);
    lemma_round_bound((-s) as nat, 1);
    lemma_units_zero(0);
}

/// A difference has the sign that the order of its terms gives.
pub proof fn lemma_difference_sign(x: Real, y: Real)
    requires
        x.finite(),
        y.finite(),
    ensures
        !(x - y).nan(),
        x.value() >= y.value() ==> (x - y).value() >= 0,
        x.value() <= y.value() ==> (x - y).value() <= 0,
        x.value() != y.value() ==> (x - y).value() != 0,
{
    lemma_zero_value(y);
    lemma_add_mag(x, y.neg());
    let s = x.value() - y.value();
    if s == 0 {
        lemma_round_zero(1);
        lemma_units_zero(0);
    } else {
        lemma_least(size(s) as nat);
    }
}

/// A magnitude of at least one unit is not rounded to zero.
proof fn lemma_least(n: nat)
    requires
        n > 0,
    ensures
        round_mag(n, 1) > 0,
        mag_units(round_mag(n, 1)) > 0,
{
    reveal(mag_units);
    assert(mag_units(1) == 1) by {
        lemma2_to64();
    }
    lemma_round_exact(1);
    lemma_round_monotone(1, 1, n, 1);
    lemma_round_bound(n, 1);
    lemma_units_zero(round_mag(n, 1));
}

/// The bounds that characterise the rounding exponent of a square root.
proof fn lemma_root_bounds(n: nat)
    ensures
        n < pow2((106 + 2 * root_exponent(n)) as nat),
        root_exponent(n) > 0 ==> n >= pow2((104 + 2 * root_exponent(n)) as nat),
    decreases n,
{
    let k = root_exponent(n);
    if n == 0 || n < pow2(106) {
        lemma_pow2_pos(106);
    } else {
        let j = (k - 1) as nat;
        lemma_pow2_pos(106);
        lemma_root_bounds(n / 4);
        assert(root_exponent(n / 4) == j);
        lemma_pow2_adds(2, (106 + 2 * j) as nat);
        lemma2_to64();
        if j > 0 {
            lemma_pow2_adds(2, (104 + 2 * j) as nat);
        }
    }
}

/// What a rounded root is: `2^k` times an integer between its two bounds.
proof fn lemma_root_parts(n: nat) -> (r: (nat, nat))
    ensures
        r.0 == root_exponent(n),
        root_mag(n) == r.0 * BINADE + r.1,
        r.1 <= PARTS,
        r.0 > 0 ==> r.1 >= BINADE,
        4 * n < (2 * r.1 + 1) * (2 * r.1 + 1) * pow2(2 * r.0),
        r.1 > 0 ==> (2 * r.1 - 1) * (2 * r.1 - 1) * pow2(2 * r.0) <= 4 * n,
{
    let k = root_exponent(n);
    lemma_root_bounds(n);
    let d = pow2(2 * k);
    lemma_pow2_pos(2 * k);
    let q = 4 * n / d;
    let f = lemma_root_exists(q);
    let s = (f + 1) / 2;
    vstd::arithmetic::div_mod::lemma_fundamental_div_mod((4 * n) as int, d as int);
    vstd::arithmetic::div_mod::lemma_mod_bound((4 * n) as int, d as int);
    lemma2_to64();
    lemma2_to64_rest();
    lemma_pow2_adds(108, 2 * k);
    lemma_pow2_adds(2, (106 + 2 * k) as nat);
    lemma_pow2_adds(54, 54);
    assert(q < pow2(108)) by (nonlinear_arith)
        requires
            4 * n < pow2(108) * d,
            d * q <= 4 * n,
            d > 0,
    ;
    assert(f < pow2(54)) by (nonlinear_arith)
        requires
            f * f <= q,
            q < pow2(54) * pow2(54),
    ;
    if k > 0 {
        lemma_pow2_adds(106, 2 * k);
        lemma_pow2_adds(2, (104 + 2 * k) as nat);
        lemma_pow2_adds(53, 53);
        assert(q >= pow2(106)) by (nonlinear_arith)
            requires
                4 * n >= pow2(106) * d,
                4 * n == d * q + (4 * n) % d,
                0 <= (4 * n) % d < d,
                d > 0,
        ;
        assert(f >= pow2(53)) by (nonlinear_arith)
            requires
                q < (f + 1) * (f + 1),
                q >= pow2(53) * pow2(53),
        ;
    }
    assert((2 * s - 1) <= f && f <= 2 * s);
    let t = 2 * s + 1;
    assert((f + 1) * (f + 1) <= t * t) by (nonlinear_arith)
        requires
            0 <= f + 1 <= t,
    ;
    assert(4 * n < (t * t) * d) by (nonlinear_arith)
        requires
            4 * n == d * q + (4 * n) % d,
            (4 * n) % d < d,
            q + 1 <= t * t,
            d > 0,
    ;
    if s > 0 {
        let v = (2 * s - 1) as nat;
        assert(v * v <= f * f) by (nonlinear_arith)
            requires
                v <= f,
        ;
        assert((v * v) * d <= 4 * n) by (nonlinear_arith)
            requires
                v * v <= q,
                d * q <= 4 * n,
                d > 0,
        ;
    }
    (k, s)
}

/// Every number has an integer square root.
proof fn lemma_root_exists(n: nat) -> (r: nat)
    ensures
        r * r <= n < (r + 1) * (r + 1),
        floor_root(n) == r,
    decreases n,
{
    if n == 0 {
        assert(0nat * 0nat == 0 && (0nat + 1) * (0nat + 1) == 1) by (nonlinear_arith);
        lemma_floor_root(0, 0);
        0
    } else {
        let p = lemma_root_exists((n - 1) as nat);
        let r = if n < (p + 1) * (p + 1) {
            p
        } else {
            p + 1
        };
        assert((p + 2) * (p + 2) > (p + 1) * (p + 1)) by (nonlinear_arith);
        lemma_floor_root(n, r);
        r
    }
}

/// A larger number has no smaller a root.
pub proof fn lemma_root_monotone(a: Real, b: Real)
    requires
        Real::whole(0) <= a,
        a <= b,
        b.finite(),
    ensures
        Real::whole(0) <= a.sqrt(),
        a.sqrt() <= b.sqrt(),
        a.sqrt().finite(),
        b.sqrt().finite(),
{
    lemma_whole(0);
    assert(0 * pow2(1074) == 0);
    lemma_zero_value(a);
    lemma_zero_value(b);
    lemma_order_key(a, b);
    lemma_units_zero(0);
    reveal(Real::spec_sqrt);
    let w = pow2(1074);
    lemma_pow2_pos(1074);
    if b.mag() > 0 {
        lemma_root_finite(b.mag());
        let n2 = mag_units(b.mag()) * w;
        if a.mag() > 0 {
            lemma_root_finite(a.mag());
            let n1 = mag_units(a.mag()) * w;
            lemma_units_order(a.mag(), b.mag());
            assert(n1 <= n2) by (nonlinear_arith)
                requires
                    mag_units(a.mag()) <= mag_units(b.mag()),
                    n1 == mag_units(a.mag()) * w,
                    n2 == mag_units(b.mag()) * w,
            ;
            lemma_root_mag_monotone(n1, n2);
            lemma_units_order(root_mag(n1), root_mag(n2));
        }
    }
}

proof fn lemma_root_mag_monotone(n1: nat, n2: nat)
    requires
        n1 <= n2,
    ensures
        root_mag(n1) <= root_mag(n2),
{
    let (k1, s1) = lemma_root_parts(n1);
    let (k2, s2) = lemma_root_parts(n2);
    lemma_root_bounds(n1);
    lemma_root_bounds(n2);
    lemma_pow2_pos(2 * k1);
    if k1 == k2 {
        let d = pow2(2 * k1);
        let (q1, q2) = (4 * n1 / d, 4 * n2 / d);
        vstd::arithmetic::div_mod::lemma_div_is_ordered((4 * n1) as int, (4 * n2) as int, d as int);
        let f1 = lemma_root_exists(q1);
        let f2 = lemma_root_exists(q2);
        assert(f1 <= f2) by (nonlinear_arith)
            requires
                f1 * f1 <= q1,
                q1 <= q2,
                q2 < (f2 + 1) * (f2 + 1),
        ;
        assert(root_mag(n1) == k1 * BINADE + (f1 + 1) / 2);
        assert(root_mag(n2) == k2 * BINADE + (f2 + 1) / 2);
    } else if k1 > k2 {
        if 106 + 2 * k2 < 104 + 2 * k1 {
            lemma_pow2_strictly_increases((106 + 2 * k2) as nat, (104 + 2 * k1) as nat);
        }
        assert(false);
    } else {
        assert(k1 * BINADE + 2 * BINADE <= k2 * BINADE + BINADE) by (nonlinear_arith)
            requires
                k1 + 1 <= k2,
        ;
    }
}

/// The root of a finite magnitude is finite.
proof fn lemma_root_finite(b: nat)
    requires
        0 < b < INF_MAG,
    ensures
        root_mag(mag_units(b) * pow2(1074)) < INF_MAG,
{
    lemma_split(b);
    let n = mag_units(b) * pow2(1074);
    let (k, s) = lemma_root_parts(n);
    lemma_root_bounds(n);
    lemma2_to64();
    lemma2_to64_rest();
    let e = mag_exponent(b);
    lemma_pow2_adds(53, e);
    lemma_pow2_adds((53 + e) as nat, 1074);
    lemma_pow2_pos(e);
    lemma_pow2_pos(1074);
    assert(n < pow2((53 + e + 1074) as nat)) by (nonlinear_arith)
        requires
            n == (mag_significand(b) * pow2(e)) * pow2(1074),
            mag_significand(b) < pow2(53),
            pow2((53 + e + 1074) as nat) == (pow2(53) * pow2(e)) * pow2(1074),
            pow2(e) > 0,
            pow2(1074) > 0,
    ;
    if 53 + e + 1074 <= 104 + 2 * k && k > 0 {
        if 53 + e + 1074 < 104 + 2 * k {
            lemma_pow2_strictly_increases((53 + e + 1074) as nat, (104 + 2 * k) as nat);
        }
        assert(false);
    }
    assert(k <= 1536);
    assert(k * BINADE + s <= 1536 * BINADE + 2 * BINADE);
}

/// The square of a root strays from the number by at most three parts in `PARTS`.
pub proof fn lemma_root_near(a: Real)
    requires
        Real::whole(0) <= a,
        a.finite(),
    ensures
        Real::whole(0) <= a.sqrt(),
        a.sqrt().finite(),
        size(a.sqrt().value() * a.sqrt().value() - a.value() * pow2(1074)) * PARTS <= 3 * (
        a.sqrt().value() * a.sqrt().value()),
{
    lemma_root_monotone(a, a);
    lemma_whole(0);
    assert(0 * pow2(1074) == 0);
    lemma_zero_value(a);
    lemma_units_zero(0);
    reveal(Real::spec_sqrt);
    let w = pow2(1074);
    lemma_pow2_pos(1074);
    if a.mag() > 0 {
        let n = mag_units(a.mag()) * w;
        let (k, s) = lemma_root_parts(n);
        lemma_root_bounds(n);
        lemma2_to64();
        lemma2_to64_rest();
        assert(n >= w) by (nonlinear_arith)
            requires
                n == mag_units(a.mag()) * w,
                mag_units(a.mag()) >= 1,
        ;
        if k == 0 {
            lemma_pow2_strictly_increases(106, 1074);
            assert(false);
        }
        lemma_compose(k, s);
        let u = pow2(k);
        lemma_pow2_pos(k);
        lemma_pow2_adds(k, k);
        let v = s * u;
        lemma_root_finite(a.mag());
        assert(a.sqrt().value() == v);
        let (lo, hi) = (2 * s - 1, 2 * s + 1);
        assert(lo * lo * pow2(2 * k) == (2 * v - u) * (2 * v - u)) by (nonlinear_arith)
            requires
                lo == 2 * s - 1,
                v == s * u,
                pow2(2 * k) == u * u,
        ;
        assert(hi * hi * pow2(2 * k) == (2 * v + u) * (2 * v + u)) by (nonlinear_arith)
            requires
                hi == 2 * s + 1,
                v == s * u,
                pow2(2 * k) == u * u,
        ;
        assert((2 * v - u) * (2 * v - u) == 4 * (v * v) - 4 * (v * u) + u * u) by (nonlinear_arith);
        assert((2 * v + u) * (2 * v + u) == 4 * (v * v) + 4 * (v * u) + u * u) by (nonlinear_arith);
        assert(u * BINADE <= v) by (nonlinear_arith)
            requires
                v == s * u,
                s >= BINADE,
        ;
        assert((v * u) * BINADE <= v * v) by (nonlinear_arith)
            requires
                u * BINADE <= v,
                v >= 0,
        ;
        assert((u * u) * BINADE <= v * v) by (nonlinear_arith)
            requires
                u * BINADE <= v,
                0 < u,
                u <= v,
        ;
        let t = v * v - n;
        assert(4 * size(t) <= 4 * (v * u) + u * u);
        assert(a.value() * w == n);
        assert(size(t) * PARTS <= 3 * (v * v)) by (nonlinear_arith)
            requires
                4 * size(t) <= 4 * (v * u) + u * u,
                (v * u) * BINADE <= v * v,
                (u * u) * BINADE <= v * v,
                PARTS == 2 * BINADE,
        ;
    } else {
        assert(0int * 0int == 0) by (nonlinear_arith);
    }
}

/// The root of one is one.
pub proof fn lemma_root_of_one()
    ensures
        Real::whole(1).sqrt() == Real::whole(1),
{
    let one = Real::whole(1);
    lemma_whole(0);
    lemma_whole(1);
    let w = pow2(1074);
    lemma_pow2_pos(1074);
    assert(0 * w == 0 && 1 * w == w);
    lemma_units_zero(one.mag());
    reveal(Real::spec_sqrt);
    let n = w * w;
    let k = 1022nat;
    lemma_pow2_adds(1074, 1074);
    lemma_pow2_strictly_increases(2148, 2150);
    lemma_root_exponent(n, k);
    lemma2_to64();
    lemma2_to64_rest();
    lemma_pow2_adds(106, 2044);
    lemma_pow2_adds(2, 2148);
    lemma_pow2_adds(53, 53);
    lemma_div_by_multiple(pow2(106) as int, pow2(2044) as int);
    assert(4 * n == pow2(106) * pow2(2044));
    assert(4 * n / pow2(2044) == pow2(106));
    let f = pow2(53);
    assert(f * f <= pow2(106) && pow2(106) < (f + 1) * (f + 1)) by (nonlinear_arith)
        requires
            pow2(106) == f * f,
    ;
    lemma_floor_root(pow2(106), f);
    lemma_one_bits();
    assert((f + 1) / 2 == BINADE);
    assert(root_mag(n) == 1022 * BINADE + BINADE);
    assert(1023 * BINADE == 0x3ff0_0000_0000_0000);
}

/// The value of one half.
pub proof fn lemma_half()
    ensures
        Real::ratio(1, 2).finite(),
        Real::ratio(1, 2).value() == pow2(1073),
        2 * pow2(1073) == pow2(1074),
        Real::whole(0) <= Real::ratio(1, 2),
{
    let w = pow2(1074);
    lemma_whole(0);
    lemma_whole(1);
    lemma_whole(2);
    lemma_pow2_pos(1074);
    lemma_pow2_unfold(1074);
    assert(0 * w == 0 && 1 * w == w);
    lemma_units_zero(Real::whole(2).mag());
    reveal(Real::spec_div);
    let h = pow2(1073);
    let b = lemma_halves(1);
    assert(1 * h == h);
    assert((w * w) * 1 == h * (2 * w)) by (nonlinear_arith)
        requires
            w == 2 * h,
    ;
    lemma_round_monotone(w * w, 2 * w, h, 1);
    lemma_round_monotone(h, 1, w * w, 2 * w);
}

/// Half of a number that is not negative, up to rounding.
pub proof fn lemma_half_of(s: Real)
    requires
        Real::whole(0) <= s,
        s.finite(),
    ensures
        ({
            let h = s * Real::ratio(1, 2);
            &&& h.finite()
            &&& 0 <= h.value() <= s.value()
            &&& size(2 * h.value() - s.value()) * PARTS <= s.value() + PARTS
        }),
{
    lemma_half();
    lemma_whole(0);
    let w = pow2(1074) as int;
    lemma_pow2_pos(1074);
    assert(0 * w == 0);
    let h = s * Real::ratio(1, 2);
    lemma_mul_shrinks(s, Real::ratio(1, 2));
    let (hv, sv, p) = (h.value(), s.value(), pow2(1073) as int);
    let d = 2 * hv - sv;
    assert(hv * w - sv * p == d * p) by (nonlinear_arith)
        requires
            d == 2 * hv - sv,
            w == 2 * p,
    ;
    assert(sv * p >= 0) by (nonlinear_arith)
        requires
            sv >= 0,
            p > 0,
    ;
    assert(size(d) * PARTS <= sv + PARTS) by (nonlinear_arith)
        requires
            size(d * p) * PARTS <= sv * p + w * BINADE,
            w == 2 * p,
            p > 0,
            PARTS == 2 * BINADE,
    ;
}

/// A price moved by a fraction of itself, up to rounding: `price * (1 + x)` and
/// `price * (1 - x)`.
pub proof fn lemma_moved(price: Real, x: Real)
    requires
        Real::whole(0) <= price,
        price.finite(),
        Real::whole(0) <= x,
        x.finite(),
        (price * x).finite(),
    ensures
        ({
            let (p, v, w) = (price.value(), x.value(), pow2(1074));
            let (up, down) = (price + price * x, price - price * x);
            &&& price <= up
            &&& down <= price
            &&& up.finite() ==> size(up.value() * w - p * (w + v)) * PARTS <= 3 * (p * v) + p * w
                + 2 * (w * BINADE)
            &&& down.finite()
            &&& size(down.value() * w - p * (w - v)) * PARTS <= 3 * (p * v) + p * w + 2 * (w
                * BINADE)
        }),
{
    lemma_whole(0);
    let w = pow2(1074) as int;
    lemma_pow2_pos(1074);
    assert(0 * w == 0);
    lemma_zero_value(price);
    lemma_zero_value(x);
    lemma_mul_close(price, x);
    let m = price * x;
    let (p, v, mv) = (price.value(), x.value(), m.value());
    lemma_zero_value(m);
    lemma_add_not_negative(price, m);
    lemma_add_grows(price, m);
    let (up, down) = (price + m, price - m);
    let e1 = mv * w - p * v;
    assert(p * v >= 0) by (nonlinear_arith)
        requires
            p >= 0,
            v >= 0,
    ;
    assert(mv * w <= 2 * (p * v) + w * BINADE) by (nonlinear_arith)
        requires
            e1 == mv * w - p * v,
            size(e1) * PARTS <= p * v + w * BINADE,
            p * v >= 0,
            w > 0,
    ;
    if up.finite() {
        lemma_add_close(price, m);
        let e2 = up.value() - (p + mv);
        assert(up.value() * w - p * (w + v) == e1 + e2 * w) by (nonlinear_arith)
            requires
                e1 == mv * w - p * v,
                e2 == up.value() - (p + mv),
        ;
        assert(size(e2 * w) * PARTS <= p * w + mv * w) by (nonlinear_arith)
            requires
                size(e2) * PARTS <= p + mv,
                w > 0,
        ;
        let (y, z) = (e1, e2 * w);
        assert(size(y + z) * PARTS <= size(y) * PARTS + size(z) * PARTS) by (nonlinear_arith)
            requires
                size(y + z) <= size(y) + size(z),
        ;
    }
    // The difference is no larger than the larger of its terms.
    lemma_add_mag(price, m.neg());
    let big = if p >= mv {
        price
    } else {
        m
    };
    lemma_round_monotone(size(p - mv) as nat, 1, big.value() as nat, 1);
    lemma_round_exact(big.mag());
    assert(down.finite());
    lemma_units_order(down.mag(), big.mag());
    if p >= mv {
        lemma_round_monotone((p - mv) as nat, 1, p as nat, 1);
        lemma_units_order(down.mag(), price.mag());
    }
    lemma_add_close(price, m.neg());
    let e2 = down.value() - (p - mv);
    assert(down.value() * w - p * (w - v) == -e1 + e2 * w) by (nonlinear_arith)
        requires
            e1 == mv * w - p * v,
            e2 == down.value() - (p - mv),
    ;
    assert(size(e2 * w) * PARTS <= p * w + mv * w) by (nonlinear_arith)
        requires
            size(e2) * PARTS <= p + mv,
            w > 0,
    ;
    let (y, z) = (-e1, e2 * w);
    assert(size(y + z) * PARTS <= size(y) * PARTS + size(z) * PARTS) by (nonlinear_arith)
        requires
            size(y + z) <= size(y) + size(z),
    ;
}

/// The difference of two numbers that are not negative: no larger than either, and
/// close.
pub proof fn lemma_subtracts(a: Real, b: Real)
    requires
        Real::whole(0) <= a,
        a.finite(),
        Real::whole(0) <= b,
        b.finite(),
    ensures
        (a - b).finite(),
        a - b <= a,
        size((a - b).value() - (a.value() - b.value())) * PARTS <= a.value() + b.value(),
{
    lemma_whole(0);
    assert(0 * pow2(1074) == 0);
    lemma_zero_value(a);
    lemma_zero_value(b);
    let (p, m) = (a.value(), b.value());
    lemma_add_mag(a, b.neg());
    let d = a - b;
    let big = if p >= m {
        a
    } else {
        b
    };
    lemma_round_monotone(size(p - m) as nat, 1, big.value() as nat, 1);
    lemma_round_exact(big.mag());
    assert(d.finite());
    lemma_units_order(d.mag(), big.mag());
    lemma_add_close(a, b.neg());
}

/// A multiple of a quotient, up to rounding: `a * (x / y)` times `y` is `a` times
/// `x`.
pub proof fn lemma_scaled_quotient(a: Real, x: Real, y: Real)
    requires
        a.finite(),
        x.finite(),
        y.finite(),
        y.value() != 0,
        (x / y).finite(),
        (a * (x / y)).finite(),
    ensures
        ({
            let (r, p, u, v, w) = (
                (a * (x / y)).value(),
                a.value(),
                x.value(),
                y.value(),
                pow2(1074) as int,
            );
            size(r * v - p * u) * w * PARTS <= 3 * (size(p * u) * w) + (2 * size(p) + w) * size(v)
                * BINADE
        }),
{
    let q = x / y;
    let r = a * q;
    let w = pow2(1074) as int;
    lemma_pow2_pos(1074);
    lemma_quotient_near(x, y);
    lemma_product_near(a, q);
    let (rv, p, u, v, qv) = (r.value(), a.value(), x.value(), y.value(), q.value());
    let (e1, e2) = (qv * v - u * w, rv * w - p * qv);
    let d = rv * v - p * u;
    assert(d * w == p * e1 + e2 * v) by (nonlinear_arith)
        requires
            d == rv * v - p * u,
            e1 == qv * v - u * w,
            e2 == rv * w - p * qv,
    ;
    let (x1, y1) = (p * e1, e2 * v);
    let pu = size(p * u);
    assert(pu == size(p) * size(u)) by (nonlinear_arith)
        requires
            pu == size(p * u),
    ;
    assert(size(x1) * PARTS <= pu * w + size(p) * size(v) * BINADE) by (nonlinear_arith)
        requires
            x1 == p * e1,
            size(e1) * PARTS <= size(u) * w + size(v) * BINADE,
            pu == size(p) * size(u),
    ;
    assert(p * (qv * v) == p * u * w + x1) by (nonlinear_arith)
        requires
            e1 == qv * v - u * w,
            x1 == p * e1,
    ;
    let pq = p * qv;
    assert(size(pq) * size(v) == size(p * (qv * v))) by (nonlinear_arith)
        requires
            pq == p * qv,
    ;
    assert(size(p * u * w) == pu * w) by (nonlinear_arith)
        requires
            pu == size(p * u),
            w > 0,
    ;
    assert(size(x1) <= size(x1) * PARTS) by (nonlinear_arith);
    assert(size(pq) * size(v) <= 2 * (pu * w) + size(p) * size(v) * BINADE);
    assert(size(y1) * PARTS <= size(pq) * size(v) + w * size(v) * BINADE) by (nonlinear_arith)
        requires
            y1 == e2 * v,
            size(e2) * PARTS <= size(pq) + w * BINADE,
    ;
    assert(size(d) * w == size(d * w)) by (nonlinear_arith)
        requires
            w > 0,
    ;
    assert((2 * size(p) + w) * size(v) * BINADE == 2 * (size(p) * size(v) * BINADE) + w * size(v)
        * BINADE) by (nonlinear_arith);
    let dw = d * w;
    assert(size(dw) * PARTS <= size(x1) * PARTS + size(y1) * PARTS) by (nonlinear_arith)
        requires
            size(dw) <= size(x1) + size(y1),
    ;
}

/// The sum of a sequence strays from the exact sum by four parts in `PARTS` of the sum
/// of the magnitudes for each element.
pub proof fn lemma_sum_near(a: Seq<Real>)
    requires
        sum_of_seq(sizes(a)).finite(),
    ensures
        sum_of_seq(a).finite(),
        size(sum_of_seq(a).value() - exact_sum(a)) * PARTS <= a.len() * (4 * sum_of_seq(
            sizes(a),
        ).value()),
        size(sum_of_seq(a).value()) <= sum_of_seq(sizes(a)).value(),
{
    let one = Real::whole(1);
    lemma_whole(1);
    let w = pow2(1074) as int;
    lemma_pow2_pos(1074);
    assert(1 * w == w);
    lemma_sum_size(a);
    assert forall|i: int| 0 <= i < a.len() implies near_product(#[trigger] a[i], a[i], one, 0, 0) by {
        assert(a[i].value() * w - a[i].value() * w == 0);
        assert(0 * (size(a[i].value()) * pow2(1074)) == 0);
        assert(0 * (pow2(1074) * PARTS) == 0);
    }
    let g = sum_of_seq(sizes(a)).value();
    lemma_scaled_sum(a, a, one, g, 0, 0);
    let (s, e, n) = (sum_of_seq(a).value(), exact_sum(a), a.len() as int);
    assert(size(e * w - w * s) * PARTS <= n * (w * (4 * g)));
    assert(size(s - e) * PARTS <= n * (4 * g)) by (nonlinear_arith)
        requires
            size(e * w - w * s) * PARTS <= n * (w * (4 * g)),
            w > 0,
    ;
}

/// The terms of a finite sum are finite.
pub proof fn lemma_finite_terms(a: Real, b: Real)
    requires
        (a + b).finite(),
    ensures
        a.finite(),
        b.finite(),
        b.neg().finite(),
{
    reveal(Real::spec_add);
}

/// The factors of a finite product are finite.
pub proof fn lemma_finite_factors(a: Real, b: Real)
    requires
        (a * b).finite(),
    ensures
        a.finite(),
        b.finite(),
{
    reveal(Real::spec_mul);
}

/// The number is the quotient of two others, up to one part in `PARTS` and half a least
/// unit.
pub open spec fn is_quotient(r: Real, x: Real, y: Real) -> bool {
    size(r.value() * y.value() - x.value() * pow2(1074)) * PARTS <= size(x.value()) * pow2(1074)
        + size(y.value()) * BINADE
}

/// The number is the product of two others, up to one part in `PARTS` and half a least
/// unit.
pub open spec fn is_product(r: Real, x: Real, y: Real) -> bool {
    size(r.value() * pow2(1074) - x.value() * y.value()) * PARTS <= size(x.value() * y.value())
        + pow2(1074) * BINADE
}

/// The number is the sum of two others, up to one part in `PARTS`.
pub open spec fn is_sum(r: Real, x: Real, y: Real) -> bool {
    size(r.value() - (x.value() + y.value())) * PARTS <= size(x.value() + y.value())
}

/// Sums, products and quotients that are finite are close to the exact ones.
pub proof fn lemma_operations_are_close(x: Real, y: Real)
    ensures
        (x + y).finite() ==> is_sum(x + y, x, y),
        (x - y).finite() ==> is_sum(x - y, x, y.neg()),
        (x * y).finite() ==> is_product(x * y, x, y),
        (x / y).finite() && x.finite() && y.finite() && y.value() != 0 ==> is_quotient(x / y, x, y),
{
    if (x + y).finite() {
        lemma_finite_terms(x, y);
        lemma_add_close(x, y);
    }
    if (x - y).finite() {
        lemma_finite_terms(x, y.neg());
        lemma_add_close(x, y.neg());
    }
    if (x * y).finite() {
        lemma_finite_factors(x, y);
        lemma_product_near(x, y);
    }
    if (x / y).finite() && x.finite() && y.finite() && y.value() != 0 {
        lemma_quotient_near(x, y);
    }
}

/// The number is the quotient of two integers of least units, up to `k` parts in `PARTS`
/// and half a least unit.
pub open spec fn near_ratio(r: Real, n: int, d: int, k: int) -> bool {
    size(r.value() * d - n * pow2(1074)) * PARTS <= k * (size(n) * pow2(1074)) + size(d) * BINADE
}

/// A sum over a number, and a difference over one.
pub proof fn lemma_sum_over(x: Real, y: Real, z: Real)
    requires
        z.finite(),
        z.value() != 0,
    ensures
        (x + y).finite() && ((x + y) / z).finite() ==> near_ratio(
            (x + y) / z,
            x.value() + y.value(),
            z.value(),
            3,
        ),
        (x - y).finite() && ((x - y) / z).finite() ==> near_ratio(
            (x - y) / z,
            x.value() - y.value(),
            z.value(),
            3,
        ),
{
    if (x + y).finite() && ((x + y) / z).finite() {
        lemma_finite_terms(x, y);
        lemma_add_close(x, y);
        lemma_quotient_near(x + y, z);
        lemma_close_over((x + y) / z, x + y, x.value() + y.value(), z);
    }
    if (x - y).finite() && ((x - y) / z).finite() {
        lemma_finite_terms(x, y.neg());
        lemma_zero_value(y.neg());
        lemma_add_close(x, y.neg());
        lemma_quotient_near(x - y, z);
        lemma_close_over((x - y) / z, x - y, x.value() - y.value(), z);
    }
}

proof fn lemma_close_over(r: Real, s: Real, n: int, z: Real)
    requires
        size(s.value() - n) * PARTS <= size(n),
        is_quotient(r, s, z),
    ensures
        near_ratio(r, n, z.value(), 3),
{
    let w = pow2(1074) as int;
    lemma_pow2_pos(1074);
    let (rv, sv, zv) = (r.value(), s.value(), z.value());
    let d = sv - n;
    assert(size(d) <= size(d) * PARTS) by (nonlinear_arith);
    assert(size(sv) <= 2 * size(n));
    assert(size(d * w) * PARTS <= size(n) * w) by (nonlinear_arith)
        requires
            size(d) * PARTS <= size(n),
            w > 0,
    ;
    assert(size(sv) * w <= 2 * (size(n) * w)) by (nonlinear_arith)
        requires
            size(sv) <= 2 * size(n),
            w > 0,
    ;
    assert(rv * zv - n * w == (rv * zv - sv * w) + d * w) by (nonlinear_arith)
        requires
            d == sv - n,
    ;
    let (e, g) = (rv * zv - sv * w, d * w);
    assert(size(e + g) * PARTS <= size(e) * PARTS + size(g) * PARTS) by (nonlinear_arith);
}

/// One over a whole number is a positive number of at most one.
pub proof fn lemma_small_ratio(d: i64)
    requires
        1 <= d <= 1_000_000_000_000_000,
    ensures
        Real::ratio(1, d).finite(),
        0 < Real::ratio(1, d).value(),
        Real::whole(0) < Real::ratio(1, d),
        Real::ratio(1, d) <= Real::whole(1),
{
    let (one, n) = (Real::whole(1), Real::whole(d));
    lemma_whole(0);
    lemma_whole(1);
    lemma_whole(d);
    let w = pow2(1074) as int;
    lemma_pow2_pos(1074);
    vstd::arithmetic::power2::lemma2_to64();
    vstd::arithmetic::power2::lemma2_to64_rest();
    vstd::arithmetic::power2::lemma_pow2_strictly_increases(60, 1074);
    assert(0 * w == 0 && 1 * w == w);
    crate::num::order::lemma_whole_order(1, d);
    crate::num::drift::lemma_at_most_one(one, n);
    let k = d as int;
    assert(k * w > 0) by (nonlinear_arith)
        requires
            k > 0,
            w > 0,
    ;
    crate::num::order::lemma_div_monotone(one, one, n);
    lemma_between(Real::whole(0), one / n, one);
    lemma_quotient_near(one, n);
    let q = (one / n).value();
    if q == 0 {
        assert(q * (k * w) == 0) by (nonlinear_arith)
            requires
                q == 0,
        ;
        assert(size(0 - w * w) == w * w) by (nonlinear_arith)
            requires
                w > 0,
        ;
        assert(w * w * PARTS > w * w + (k * w) * BINADE) by (nonlinear_arith)
            requires
                w >= 0x1000_0000_0000_0000,
                0 < k <= 1_000_000_000_000_000,
                PARTS == 0x20_0000_0000_0000,
                BINADE == 0x10_0000_0000_0000,
        ;
        assert(false);
    }
}

/// The terms of a sum that is a number are numbers.
pub proof fn lemma_not_nan_sum(a: Real, b: Real)
    requires
        !(a + b).nan(),
    ensures
        !a.nan(),
        !b.nan(),
{
    reveal(Real::spec_add);
}

/// The factors of a product that is a number are numbers.
pub proof fn lemma_not_nan_product(a: Real, b: Real)
    requires
        !(a * b).nan(),
    ensures
        !a.nan(),
        !b.nan(),
{
    reveal(Real::spec_mul);
}

/// Minus half of a larger number is no larger.
pub proof fn lemma_halved_order(y: Real, x: Real)
    requires
        y <= x,
        !(Real::ratio(1, 2).neg() * x).nan(),
        !(Real::ratio(1, 2).neg() * y).nan(),
    ensures
        Real::ratio(1, 2).neg() * x <= Real::ratio(1, 2).neg() * y,
{
    let half = Real::ratio(1, 2);
    lemma_half();
    lemma_pow2_pos(1073);
    lemma_zero_value(half);
    assert(!half.negative()) by {
        lemma_units_zero(half.mag());
    }
    lemma_infinite_product(half, x);
    lemma_infinite_product(half, y);
    lemma_negated_factor(half, x);
    lemma_negated_factor(half, y);
    assert(half * y <= half * x) by {
        lemma_scaled_order(half, y, x);
    }
    lemma_neg_order(half * y, half * x);
}

/// A positive factor keeps the order of any two numbers.
pub proof fn lemma_scaled_order(c: Real, y: Real, x: Real)
    requires
        c.finite(),
        c.value() > 0,
        !c.negative(),
        y <= x,
        !(c * x).nan(),
        !(c * y).nan(),
    ensures
        c * y <= c * x,
{
    lemma_whole(0);
    assert(0 * pow2(1074) == 0);
    lemma_order_key(y, x);
    lemma_zero_value(c);
    lemma_order_key(Real::whole(0), c);
    if y.finite() && x.finite() {
        lemma_zero_value(x);
        lemma_zero_value(y);
        if y.value() >= 0 {
            lemma_order_key(Real::whole(0), y);
            lemma_mul_monotone(y, x, c);
        } else if x.value() <= 0 {
            lemma_neg_order(y, x);
            lemma_order_key(Real::whole(0), x.neg());
            lemma_mul_monotone(x.neg(), y.neg(), c);
            lemma_negated_factor(c, x);
            lemma_negated_factor(c, y);
            lemma_zero_value(c * x);
            lemma_zero_value(c * y);
            lemma_neg_order(c * x.neg(), c * y.neg());
        } else {
            lemma_order_key(Real::whole(0), x);
            lemma_mul_monotone(x, x, c);
            lemma_order_key(Real::whole(0), y.neg());
            lemma_mul_monotone(y.neg(), y.neg(), c);
            lemma_negated_factor(c, y);
            lemma_zero_value(c * y);
            lemma_order_key(Real::whole(0), c * y.neg());
            lemma_order_key(c * y, c * x);
            lemma_order_key(Real::whole(0), c * x);
        }
    } else {
        lemma_infinite_product(c, x);
        lemma_infinite_product(c, y);
        lemma_order_key(c * y, c * x);
    }
}

/// A positive finite factor leaves infinities alone.
pub proof fn lemma_infinite_product(c: Real, x: Real)
    requires
        c.finite(),
        c.value() > 0,
        !c.negative(),
        !x.nan(),
    ensures
        x.infinite() ==> c * x == x,
        !(c * x).nan(),
{
    reveal(Real::spec_mul);
    lemma_zero_value(c);
    crate::num::order::lemma_round_bound(
        crate::num::model::mag_units(c.mag()) * crate::num::model::mag_units(x.mag()),
        pow2(1074),
    );
}

/// Sums keep the order of their terms.
pub proof fn lemma_sum_of_orders(a: Real, b: Real, c: Real, d: Real)
    requires
        a <= b,
        c <= d,
        !(a + c).nan(),
        !(b + d).nan(),
    ensures
        a + c <= b + d,
{
    lemma_not_nan_sum(a, c);
    lemma_not_nan_sum(b, d);
    if !(b + c).nan() {
        lemma_add_monotone(a, b, c);
        lemma_add_commutes(b, c);
        lemma_add_commutes(b, d);
        lemma_add_monotone(c, d, b);
        lemma_order_key(a + c, b + c);
        lemma_order_key(b + c, b + d);
        lemma_order_key(a + c, b + d);
    } else {
        lemma_order_key(a, b);
        lemma_order_key(c, d);
        assert(b.infinite() && c.infinite() && b.negative() != c.negative()) by {
            reveal(Real::spec_add);
            let t = b.value() + c.value();
            crate::num::order::lemma_round_bound(t as nat, 1);
            crate::num::order::lemma_round_bound((-t) as nat, 1);
        }
        assert(b.infinite() && !b.negative());
        assert(b + d == b && a + c == c) by {
            reveal(Real::spec_add);
        }
        lemma_order_key(c, b);
    }
}

} // verus!
