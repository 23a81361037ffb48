//! What holds of the fusion after any number of calls.
use vstd::arithmetic::power2::*;
use vstd::prelude::*;

use crate::ensemble::distribution::SignalOutput;
use crate::ensemble::fusion::{
    active_among, ema_after, equal_evidence_has_equal_weight, evidence_ratios, fused_count,
    largest_active, presence, weights_of,
};
use crate::ensemble::weights::{
    active_source_keeps_floor, better_evidence_has_no_less_weight, evidence_is_finite,
    weights_sum_to_one,
};
use crate::num::constants::minus_infinity;
use crate::num::drift::{
    exact_sum, lemma_add_close, lemma_add_mag, lemma_at_most_one, lemma_cancels,
    lemma_mul_commutes, lemma_mul_shrinks, lemma_one_bits, lemma_sixty_four, size, PARTS,
};
use crate::num::elementary::{exp_is_monotone, exp_of, Elementary, Oracle};
use crate::num::magnitude::{lemma_round_zero, lemma_units_zero};
use crate::num::model::{mag_units, round_mag, BINADE};
use crate::num::ops::{lemma_order_key, lemma_round_exact};
use crate::num::order::{
    lemma_count, lemma_count_order, lemma_neg_order, lemma_round_bound, lemma_round_monotone,
    lemma_share, lemma_units_order, lemma_whole, lemma_whole_order,
};
use crate::num::Real;

verus! {

/// The moving averages lie between minus sixty-four and zero.
pub open spec fn evidence_is_bounded(ema: Seq<Real>) -> bool {
    forall|i: int|
        0 <= i < ema.len() ==> Real::whole(64).neg() <= (#[trigger] ema[i]) && ema[i]
            <= Real::whole(0)
}

/// The log evidence of every present signal is a number.
pub open spec fn evidence_is_given(signals: Seq<Option<SignalOutput>>) -> bool {
    forall|i: int|
        0 <= i < signals.len() && (#[trigger] signals[i]) is Some ==> !signals[i]->0.log_evidence.nan()
}

/// The moving averages after a history of calls, from `ema` on.
pub open spec fn ema_run(
    ema: Seq<Real>,
    history: Seq<Seq<Option<SignalOutput>>>,
    decay: Real,
) -> Seq<Real>
    decreases history.len(),
{
    if history.len() == 0 {
        ema
    } else {
        ema_after(ema_run(ema, history.drop_last(), decay), history.last(), decay)
    }
}

/// The moving averages of `k` sources before any call.
pub open spec fn no_evidence(k: nat) -> Seq<Real> {
    Seq::new(k, |i: int| Real::whole(0))
}

/// The share of new evidence is at most what is left of sixty-four.
proof fn lemma_new_share(w: int, d: int, c: int, l: int, q: int)
    requires
        0 <= d <= w,
        BINADE <= w,
        0 <= c,
        0 <= l <= 50 * w,
        0 <= q,
        size(c - (w - d)) * PARTS <= w - d,
        size(q * w - l * c) * PARTS <= l * c + w * BINADE,
    ensures
        q <= 64 * (w - d),
{
    let r = w - d;
    let p = PARTS as int;
    let (x, y) = (c - r, q * w - l * c);
    assert(x * p <= size(x) * p && y * p <= size(y) * p) by (nonlinear_arith)
        requires
            p > 0,
    ;
    assert(x * p == c * p - r * p && r * (p + 1) == r * p + r) by (nonlinear_arith)
        requires
            x == c - r,
    ;
    assert(c * p <= r * (p + 1));
    assert(l * c <= 50 * (w * c)) by (nonlinear_arith)
        requires
            l <= 50 * w,
            c >= 0,
    ;
    assert(y * p == (q * w) * p - (l * c) * p && (l * c) * (p + 1) == (l * c) * p + l * c)
        by (nonlinear_arith)
        requires
            y == q * w - l * c,
    ;
    assert((q * w) * p <= (l * c) * (p + 1) + w * BINADE);
    assert((l * c) * (p + 1) <= 50 * (w * c) * (p + 1)) by (nonlinear_arith)
        requires
            l * c <= 50 * (w * c),
            p > 0,
    ;
    assert(q * p <= 50 * c * (p + 1) + BINADE) by (nonlinear_arith)
        requires
            (q * w) * p <= 50 * (w * c) * (p + 1) + w * BINADE,
            w > 0,
    ;
    assert(50 * c * (p + 1) * p <= 50 * r * (p + 1) * (p + 1)) by (nonlinear_arith)
        requires
            c * p <= r * (p + 1),
            p > 0,
    ;
    assert(q * p * p <= 50 * r * (p + 1) * (p + 1) + BINADE * p) by (nonlinear_arith)
        requires
            q * p <= 50 * c * (p + 1) + BINADE,
            50 * c * (p + 1) * p <= 50 * r * (p + 1) * (p + 1),
            p > 0,
    ;
    let pp = p * p;
    assert(50 * r * (p + 1) * (p + 1) <= 51 * (r * pp)) by (nonlinear_arith)
        requires
            pp == p * p,
            p >= 200,
            r >= 0,
    ;
    assert(BINADE * p <= pp) by (nonlinear_arith)
        requires
            pp == p * p,
            p == 2 * BINADE,
    ;
    assert(q * pp <= 51 * (r * pp) + pp) by (nonlinear_arith)
        requires
            q * p * p <= 51 * (r * pp) + pp,
            pp == p * p,
    ;
    assert(BINADE * p * 2 == pp) by (nonlinear_arith)
        requires
            pp == p * p,
            p == 2 * BINADE,
    ;
    if r == 0 {
        assert(2 * (q * pp) <= pp) by (nonlinear_arith)
            requires
                q * p * p <= 50 * r * (p + 1) * (p + 1) + BINADE * p,
                r == 0,
                pp == p * p,
                BINADE * p * 2 == pp,
        ;
        assert(q == 0) by (nonlinear_arith)
            requires
                2 * (q * pp) <= pp,
                pp > 0,
                q >= 0,
        ;
    } else {
        assert(q <= 51 * r + 1) by (nonlinear_arith)
            requires
                q * pp <= 51 * (r * pp) + pp,
                pp > 0,
        ;
    }
}

/// One step of a moving average stays within its bounds.
proof fn lemma_step_bounded(e: Real, d: Real, le: Real)
    requires
        Real::whole(64).neg() <= e,
        e <= Real::whole(0),
        Real::whole(0) <= d,
        d <= Real::whole(1),
        Real::whole(50).neg() <= le,
        le <= Real::whole(0),
    ensures
        Real::whole(64).neg() <= d * e + (Real::whole(1) - d) * le,
        d * e + (Real::whole(1) - d) * le <= Real::whole(0),
{
    let w = pow2(1074) as int;
    lemma2_to64();
    lemma2_to64_rest();
    lemma_pow2_pos(1074);
    lemma_pow2_strictly_increases(52, 1074);
    lemma_whole(0);
    lemma_whole(1);
    lemma_whole(50);
    lemma_whole(64);
    assert(0 * w == 0 && 1 * w == w);
    let (one, top) = (Real::whole(1), Real::whole(64));
    lemma_units_zero(e.mag());
    lemma_units_zero(d.mag());
    lemma_units_zero(le.mag());
    lemma_units_zero(0);
    lemma_order_key(e, Real::whole(0));
    lemma_order_key(top.neg(), e);
    lemma_order_key(d, one);
    lemma_order_key(Real::whole(50).neg(), le);
    assert(e.finite() && d.finite() && le.finite());
    let (du, eu) = (mag_units(d.mag()), mag_units(e.mag()));
    // What is kept of the average.
    let p = d * e;
    lemma_mul_commutes(d, e);
    lemma_mul_shrinks(e, d);
    lemma_sixty_four(d.mag());
    assert(size(p.value()) <= 64 * du) by {
        reveal(Real::spec_mul);
        assert((du * eu) * 1 <= (64 * du) * w) by (nonlinear_arith)
            requires
                eu <= 64 * w,
        ;
        lemma_round_monotone(du * eu, w as nat, 64 * du, 1);
        lemma_round_bound(du * eu, w as nat);
        lemma_units_order(round_mag(du * eu, w as nat), round_mag(64 * du, 1));
    }
    assert(p.value() <= 0);
    // What comes in.
    let c = one - d;
    lemma_add_mag(one, d.neg());
    lemma_round_monotone((one.value() - d.value()) as nat, 1, one.value() as nat, 1);
    lemma_round_exact(one.mag());
    lemma_units_order(c.mag(), one.mag());
    lemma_add_close(one, d.neg());
    let q = c * le;
    lemma_mul_commutes(c, le);
    lemma_mul_shrinks(le, c);
    let l = -le.value();
    assert(le.value() * c.value() == -(l * c.value())) by (nonlinear_arith)
        requires
            l == -le.value(),
    ;
    assert(l * c.value() >= 0) by (nonlinear_arith)
        requires
            l >= 0,
            c.value() >= 0,
    ;
    let qv = -q.value();
    assert(q.value() * w == -(qv * w)) by (nonlinear_arith)
        requires
            qv == -q.value(),
    ;
    lemma_new_share(w, d.value(), c.value(), l, qv);
    // Their sum.
    let r = p + q;
    let s = p.value() + q.value();
    lemma_add_mag(p, q);
    assert(size(s) <= 64 * w);
    lemma_round_monotone(size(s) as nat, 1, (64 * w) as nat, 1);
    lemma_round_exact(top.mag());
    lemma_units_order(r.mag(), top.mag());
    if s == 0 {
        lemma_round_zero(1);
    }
}

/// Taking in evidence keeps the moving averages within their bounds.
pub proof fn evidence_stays_bounded(
    ema: Seq<Real>,
    signals: Seq<Option<SignalOutput>>,
    decay: Real,
)
    requires
        evidence_is_bounded(ema),
        evidence_is_given(signals),
        Real::whole(0) <= decay,
        decay <= Real::whole(1),
    ensures
        evidence_is_bounded(ema_after(ema, signals, decay)),
{
    let after = ema_after(ema, signals, decay);
    lemma_whole_order(0, 50);
    lemma_neg_order(Real::whole(0), Real::whole(50));
    lemma_whole(0);
    assert forall|i: int| 0 <= i < after.len() implies Real::whole(64).neg() <= (#[trigger] after[i])
        && after[i] <= Real::whole(0) by {
        assert(Real::whole(64).neg() <= ema[i] && ema[i] <= Real::whole(0));
        if i < signals.len() && signals[i] is Some {
            let le = signals[i]->0.log_evidence.clamp(Real::whole(50).neg(), Real::whole(0));
            lemma_step_bounded(ema[i], decay, le);
        }
    }
}

/// The moving averages stay within their bounds over any history of calls.
pub proof fn evidence_stays_bounded_over_calls(
    ema: Seq<Real>,
    history: Seq<Seq<Option<SignalOutput>>>,
    decay: Real,
)
    requires
        evidence_is_bounded(ema),
        forall|t: int| 0 <= t < history.len() ==> evidence_is_given(#[trigger] history[t]),
        Real::whole(0) <= decay,
        decay <= Real::whole(1),
    ensures
        evidence_is_bounded(ema_run(ema, history, decay)),
        ema_run(ema, history, decay).len() == ema.len(),
    decreases history.len(),
{
    if history.len() > 0 {
        let before = history.drop_last();
        assert forall|t: int| 0 <= t < before.len() implies evidence_is_given(
            #[trigger] before[t],
        ) by {
            assert(evidence_is_given(history[t]));
        }
        evidence_stays_bounded_over_calls(ema, before, decay);
        assert(evidence_is_given(history[history.len() - 1]));
        evidence_stays_bounded(ema_run(ema, before, decay), history.last(), decay);
    }
}

proof fn lemma_bounded_is_finite(ema: Seq<Real>, active: Seq<bool>)
    requires
        evidence_is_bounded(ema),
        active.len() <= ema.len(),
    ensures
        evidence_is_finite(ema, active),
{
    lemma_whole(0);
    lemma_whole(64);
    assert forall|i: int| 0 <= i < active.len() && active[i] implies (#[trigger] ema[i]).finite() by {
        assert(Real::whole(64).neg() <= ema[i] && ema[i] <= Real::whole(0));
        lemma_order_key(Real::whole(64).neg(), ema[i]);
        lemma_order_key(ema[i], Real::whole(0));
    }
}

/// The floor of a fusion of `k` sources: at most an equal share.
pub open spec fn floor_for(k: usize, min_weight: Real) -> Real {
    min_weight.clamp(Real::whole(0), Real::whole(1) / Real::count(k))
}

proof fn lemma_floor(k: usize, min_weight: Real)
    requires
        k >= 1,
        !min_weight.nan(),
    ensures
        Real::whole(0) <= floor_for(k, min_weight),
        floor_for(k, min_weight) <= Real::whole(1) / Real::count(k),
        floor_for(k, min_weight) <= Real::whole(1),
{
    lemma_whole(0);
    lemma_whole(1);
    lemma_whole_order(0, 1);
    lemma_share(k);
    lemma_count_order(1, k);
    lemma_count(1);
    lemma_at_most_one(Real::whole(1), Real::count(k));
}

/// After any history of calls with numbers, the weights of the next call sum to
/// one up to rounding, a missing source has none, a present one at least the
/// floor, and better evidence never less. The exponential that is supplied must
/// not fall.
pub proof fn weights_hold_over_calls(
    f: Oracle,
    k: usize,
    decay: Real,
    min_weight: Real,
    history: Seq<Seq<Option<SignalOutput>>>,
)
    requires
        1 <= k,
        history.len() > 0,
        k < 0x20_0000_0000_0000 || history.last().len() < 0x20_0000_0000_0000,
        forall|t: int| 0 <= t < history.len() ==> evidence_is_given(#[trigger] history[t]),
        Real::whole(0) <= decay,
        decay <= Real::whole(1),
        !min_weight.nan(),
        exp_is_monotone(f),
        exists|i: int|
            0 <= i < history.last().len() && i < k && (#[trigger] history.last()[i]) is Some,
    ensures
        ({
            let ema = ema_run(no_evidence(k as nat), history, decay);
            let signals = history.last();
            let n = fused_count(ema, signals);
            let floor = floor_for(k, min_weight);
            let weights = weights_of(f, ema, presence(signals, n), floor);
            &&& weights.len() == n
            &&& size(exact_sum(weights) - pow2(1074)) * PARTS <= (10 * n + 4) * pow2(1074)
            &&& forall|i: int|
                0 <= i < n && signals[i] is None ==> (#[trigger] weights[i]) == Real::whole(0)
            &&& forall|i: int|
                0 <= i < n && signals[i] is Some ==> floor <= (#[trigger] weights[i])
            &&& forall|i: int, j: int|
                #![trigger weights[i], weights[j]]
                0 <= i < n && 0 <= j < n && signals[i] is Some && signals[j] is Some && ema[i]
                    <= ema[j] ==> weights[i] <= weights[j]
        }),
{
    let zeros = no_evidence(k as nat);
    lemma_whole(0);
    lemma_whole_order(0, 64);
    lemma_neg_order(Real::whole(0), Real::whole(64));
    assert(evidence_is_bounded(zeros));
    evidence_stays_bounded_over_calls(zeros, history, decay);
    let ema = ema_run(zeros, history, decay);
    let signals = history.last();
    let n = fused_count(ema, signals);
    let floor = floor_for(k, min_weight);
    let active = presence(signals, n);
    let weights = weights_of(f, ema, active, floor);
    lemma_bounded_is_finite(ema, active);
    lemma_floor(k, min_weight);
    assert(floor.finite()) by {
        lemma_whole(1);
        lemma_order_key(floor, Real::whole(1));
        lemma_units_zero(floor.mag());
    }
    let at = choose|i: int|
        0 <= i < history.last().len() && i < k && (#[trigger] history.last()[i]) is Some;
    assert(active[at]);
    weights_sum_to_one(f, ema, active, floor);
    assert forall|i: int| 0 <= i < n && signals[i] is Some implies floor <= (
    #[trigger] weights[i]) by {
        assert(active[i]);
        active_source_keeps_floor(f, ema, active, floor, i);
    }
    assert forall|i: int, j: int|
        #![trigger weights[i], weights[j]]
        0 <= i < n && 0 <= j < n && signals[i] is Some && signals[j] is Some && ema[i]
            <= ema[j] implies weights[i] <= weights[j] by {
        assert(active[i] && active[j]);
        better_evidence_has_no_less_weight(f, ema, active, floor, i, j);
    }
}

/// Without forgetting no evidence is ever taken in: the moving averages stay zero.
pub proof fn without_forgetting_evidence_stays_zero(
    k: nat,
    history: Seq<Seq<Option<SignalOutput>>>,
)
    requires
        forall|t: int| 0 <= t < history.len() ==> evidence_is_given(#[trigger] history[t]),
    ensures
        ema_run(no_evidence(k), history, Real::whole(1)) == no_evidence(k),
    decreases history.len(),
{
    if history.len() > 0 {
        let before = history.drop_last();
        assert forall|t: int| 0 <= t < before.len() implies evidence_is_given(
            #[trigger] before[t],
        ) by {
            assert(evidence_is_given(history[t]));
        }
        without_forgetting_evidence_stays_zero(k, before);
        let signals = history.last();
        assert(evidence_is_given(history[history.len() - 1]));
        let zeros = no_evidence(k);
        let after = ema_after(zeros, signals, Real::whole(1));
        assert forall|i: int| 0 <= i < k implies after[i] == Real::whole(0) by {
            if i < signals.len() && signals[i] is Some {
                let le = signals[i]->0.log_evidence.clamp(Real::whole(50).neg(), Real::whole(0));
                lemma_whole(50);
                lemma_whole(0);
                lemma_whole_order(0, 50);
                lemma_neg_order(Real::whole(0), Real::whole(50));
                lemma_order_key(Real::whole(50).neg(), le);
                lemma_order_key(le, Real::whole(0));
                lemma_no_share(le);
            }
        }
        assert(after =~= zeros);
    }
}

proof fn lemma_no_share(le: Real)
    requires
        le.finite(),
    ensures
        Real::whole(1) * Real::whole(0) + (Real::whole(1) - Real::whole(1)) * le == Real::whole(0),
{
    lemma_whole(0);
    lemma_whole(1);
    lemma_one_bits();
    lemma_cancels(Real::whole(1));
    lemma_pow2_pos(1074);
    lemma_units_zero(0);
    assert(Real::whole(0).bits == 0) by {
        lemma_round_zero(1);
        assert(0 * pow2(1074) == 0);
    }
    let (a, b) = (Real::whole(1) * Real::whole(0), Real::whole(0) * le);
    assert(a.mag() == 0 && !a.negative() && b.mag() == 0) by {
        reveal(Real::spec_mul);
        lemma_round_zero(pow2(1074));
        assert(mag_units(Real::whole(1).mag()) * 0 == 0) by (nonlinear_arith);
        assert(0 * mag_units(le.mag()) == 0) by (nonlinear_arith);
    }
    reveal(Real::spec_add);
}

/// Where the present sources weigh the same, the exact sum of the first `n`
/// weights is their number times that weight.
proof fn lemma_equal_sum(weights: Seq<Real>, active: Seq<bool>, x: int, n: nat)
    requires
        n <= weights.len() == active.len(),
        forall|i: int|
            0 <= i < weights.len() ==> (#[trigger] weights[i]).value() == if active[i] {
                x
            } else {
                0
            },
    ensures
        exact_sum(weights.take(n as int)) == active_among(active, n) * x,
    decreases n,
{
    if n == 0 {
        assert(weights.take(0).len() == 0);
        assert(0 * x == 0) by (nonlinear_arith);
    } else {
        let m = (n - 1) as nat;
        lemma_equal_sum(weights, active, x, m);
        assert(weights.take(n as int).drop_last() =~= weights.take(m as int));
        assert(weights[m as int].value() == if active[m as int] { x } else { 0 });
        let c = active_among(active, m);
        assert((c + 1) * x == c * x + x) by (nonlinear_arith);
    }
}

proof fn lemma_zero_is_largest(k: nat, active: Seq<bool>, n: nat)
    requires
        n <= active.len() <= k,
    ensures
        ({
            let top = largest_active(no_evidence(k), active, n);
            &&& top == minus_infinity() || top == Real::whole(0)
            &&& forall|i: int| 0 <= i < n && #[trigger] active[i] ==> top == Real::whole(0)
        }),
    decreases n,
{
    if n > 0 {
        lemma_zero_is_largest(k, active, (n - 1) as nat);
        lemma_whole(0);
        lemma_order_key(minus_infinity(), Real::whole(0));
    }
}

/// Without evidence only the exponential of zero matters.
proof fn lemma_zero_ratios(f: Oracle, g: Oracle, k: nat, active: Seq<bool>)
    requires
        active.len() <= k,
        exp_of(f, Real::whole(0)) == exp_of(g, Real::whole(0)),
    ensures
        evidence_ratios(f, no_evidence(k), active) == evidence_ratios(g, no_evidence(k), active),
{
    lemma_zero_is_largest(k, active, active.len());
    lemma_whole(0);
    lemma_cancels(Real::whole(0));
    let (a, b) = (
        evidence_ratios(f, no_evidence(k), active),
        evidence_ratios(g, no_evidence(k), active),
    );
    assert forall|i: int| 0 <= i < active.len() implies a[i] == b[i] by {
        if active[i] {
            assert(largest_active(no_evidence(k), active, active.len()) == Real::whole(0));
        }
    }
    assert(a =~= b);
}

/// A decay of one weighs all present sources alike, whatever evidence was ever
/// passed: every present one of `m` has the weight `1 / m`, up to rounding. Of the
/// exponential that is supplied only the value at zero matters.
pub proof fn without_forgetting_weights_are_equal(
    f: Oracle,
    k: usize,
    min_weight: Real,
    history: Seq<Seq<Option<SignalOutput>>>,
    at: int,
)
    requires
        1 <= k,
        history.len() > 0,
        k < 0x20_0000_0000_0000 || history.last().len() < 0x20_0000_0000_0000,
        forall|t: int| 0 <= t < history.len() ==> evidence_is_given(#[trigger] history[t]),
        !min_weight.nan(),
        exp_of(f, Real::whole(0)) == Real::whole(1),
        0 <= at < history.last().len(),
        at < k,
        history.last()[at] is Some,
    ensures
        ({
            let ema = ema_run(no_evidence(k as nat), history, Real::whole(1));
            let n = fused_count(ema, history.last());
            let active = presence(history.last(), n);
            let weights = weights_of(f, ema, active, floor_for(k, min_weight));
            let m = active_among(active, n);
            &&& forall|i: int|
                0 <= i < n && history.last()[i] is Some ==> (#[trigger] weights[i]) == weights[at]
            &&& size(m * weights[at].value() - pow2(1074)) * PARTS <= (10 * n + 4) * pow2(1074)
        }),
{
    let one = Real::whole(1);
    lemma_whole(0);
    lemma_whole_order(0, 1);
    lemma_whole(1);
    let signals = history.last();
    assert(history.last()[at] is Some);
    let g = |e: Elementary| one;
    lemma_whole_order(1, 1);
    assert(exp_is_monotone(g));
    weights_hold_over_calls(g, k, one, min_weight, history);
    without_forgetting_evidence_stays_zero(k as nat, history);
    let ema = ema_run(no_evidence(k as nat), history, one);
    let n = fused_count(ema, signals);
    let active = presence(signals, n);
    lemma_zero_ratios(f, g, k as nat, active);
    let weights = weights_of(f, ema, active, floor_for(k, min_weight));
    assert forall|i: int| 0 <= i < n && signals[i] is Some implies (#[trigger] weights[i])
        == weights[at] by {
        assert(active[i] && active[at]);
        equal_evidence_has_equal_weight(f, ema, floor_for(k, min_weight), active, i, at);
    }
    let x = weights[at].value();
    assert(0 * pow2(1074) == 0);
    assert forall|i: int| 0 <= i < weights.len() implies (#[trigger] weights[i]).value() == if active[i] {
        x
    } else {
        0
    } by {
        assert(active[i] == signals[i] is Some);
    }
    lemma_equal_sum(weights, active, x, n);
    assert(weights.take(n as int) =~= weights);
}

} // verus!
