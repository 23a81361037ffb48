//! Exposure after scaling.
use vstd::arithmetic::power2::*;
use vstd::prelude::*;

use crate::ensemble::distribution::EnsembleDistribution;
use crate::num::drift::{
    exact_sum, is_scaled, lemma_add_close, lemma_add_mag, lemma_div_close, lemma_mul_close,
    lemma_mul_one, lemma_mul_shrinks, lemma_quotient, lemma_same_sum, lemma_scaled_sum,
    lemma_size_sum, lemma_sum_size, near_product, size, sizes, PARTS,
};
use crate::num::magnitude::lemma_units_zero;
use crate::num::model::{mag_units, BINADE};
use crate::num::ops::{lemma_order_key, lemma_round_exact};
use crate::num::order::{lemma_count, lemma_round_monotone, lemma_units_order, lemma_whole};
use crate::num::series::{
    last_max, lemma_last_max_place, lemma_slot, lemma_stable_order_places, slot, stable_order_of,
    sum_of_seq,
};
use crate::num::Real;
use crate::optimizer::kelly::{
    are_decisions, best_fraction, candidate_at, candidates_of, chosen, dp_candidates_of, dp_fraction,
    exhaustive_search_is_optimal, exposure_scale, fractions_of, grid_point, held_fraction,
    is_decision, is_leg, is_order, nearest_point, ranking, selection, signed_fraction,
    stage_values, step_value, trimmed_of, AssetCandidate, GRID,
};
use crate::optimizer::laws::{lemma_candidates, lemma_greedy_cost};
use crate::optimizer::types::{
    AssetDistribution, ComboConfig, ComboOrder, OrderLeg, PortfolioConstraints, TradeDecision,
};
use crate::risk::manager::PortfolioState;
use crate::signals::generator::Direction;

verus! {

/// `x`, in least units, exceeds the limit by no more than what the given number
/// of roundings adds: each adds at most one part in `PARTS` of the gross exposure
/// before scaling, and a least unit.
pub open spec fn within_rounding(x: int, limit: Real, gross: Real, roundings: nat) -> bool {
    x * PARTS <= limit.value() * PARTS + roundings * (PARTS + gross.value())
}

/// The factor that brings an exposure to its limit.
spec fn factor(x: Real, limit: Real) -> Real {
    if x > limit {
        limit / x
    } else {
        Real::whole(1)
    }
}

proof fn lemma_factor(x: Real, limit: Real)
    requires
        x.finite(),
        0 <= x.value(),
        Real::whole(0) <= limit,
    ensures
        factor(x, limit).finite(),
        0 <= factor(x, limit).value() <= pow2(1074),
        factor(x, limit).value() * x.value() * PARTS <= pow2(1074) * (limit.value() * PARTS + 2
            * x.value()),
{
    let w = pow2(1074) as int;
    lemma2_to64_rest();
    lemma_pow2_strictly_increases(52, 1074);
    lemma_whole(0);
    lemma_whole(1);
    assert(1 * w == w);
    let q = factor(x, limit).value();
    let (v, l) = (x.value(), limit.value());
    if x > limit {
        lemma_quotient(limit, x);
        lemma_div_close(limit, x);
        assert(l * w + v * BINADE <= 2 * (v * w)) by (nonlinear_arith)
            requires
                l <= v,
                BINADE <= w,
                0 <= v,
        ;
        assert(q * v * PARTS <= w * (l * PARTS + 2 * v)) by (nonlinear_arith)
            requires
                (q * v - l * w) * PARTS <= 2 * (v * w),
        ;
    } else {
        assert(q * v * PARTS <= w * (l * PARTS + 2 * v)) by (nonlinear_arith)
            requires
                q == w,
                w > 0,
                0 <= v <= l,
        ;
    }
}

/// The multiples of numbers keep the limit that their factor was made for, up to
/// rounding.
proof fn lemma_limited(
    a: Seq<Real>,
    b: Seq<Real>,
    s: Real,
    x: Real,
    limit: Real,
    c: nat,
    h: nat,
)
    requires
        is_scaled(b, a, s, c, h),
        h <= 2 * c + 4,
        sum_of_seq(sizes(a)).finite(),
        Real::whole(0) <= limit,
        x.finite(),
        x.value() == size(sum_of_seq(a).value()),
        0 <= s.value() <= factor(x, limit).value(),
    ensures
        sum_of_seq(b).finite(),
        within_rounding(
            size(sum_of_seq(b).value()),
            limit,
            sum_of_seq(sizes(a)),
            (2 * c + 4) * a.len() + 2,
        ),
        within_rounding(
            size(exact_sum(b)),
            limit,
            sum_of_seq(sizes(a)),
            (2 * c + 4) * a.len() + 2,
        ),
{
    let w = pow2(1074) as int;
    lemma_pow2_pos(1074);
    let g = sum_of_seq(sizes(a)).value();
    lemma_factor(x, limit);
    lemma_sum_size(a);
    lemma_scaled_sum(a, b, s, g, c, h);
    let n = a.len() as int;
    let f = s.value();
    let q = factor(x, limit).value();
    let (v, l) = (x.value(), limit.value());
    assert(f * v * PARTS <= q * v * PARTS) by (nonlinear_arith)
        requires
            0 <= f <= q,
            0 <= v,
    ;
    lemma_cancel(sum_of_seq(b).value(), sum_of_seq(a).value(), w, f, v, l, g, n, c as int, h as int);
    lemma_cancel(exact_sum(b), sum_of_seq(a).value(), w, f, v, l, g, n, c as int, h as int);
}

proof fn lemma_cancel(
    m: int,
    t: int,
    w: int,
    f: int,
    v: int,
    l: int,
    g: int,
    n: int,
    c: int,
    h: int,
)
    requires
        w > 0,
        f >= 0,
        n >= 0,
        0 <= h <= 2 * c + 4,
        v == size(t),
        v <= g,
        f * v * PARTS <= w * (l * PARTS + 2 * v),
        size(m * w - f * t) * PARTS <= n * (w * (h * PARTS + (2 * c + 4) * g)),
    ensures
        size(m) * PARTS <= l * PARTS + ((2 * c + 4) * n + 2) * (PARTS + g),
{
    assert(size(f * t) == f * v) by (nonlinear_arith)
        requires
            v == size(t),
            f >= 0,
    ;
    assert(size(m * w) == size(m) * w) by (nonlinear_arith)
        requires
            w > 0,
    ;
    let z = h * PARTS + (2 * c + 4) * g;
    assert(n * (w * z) == w * (n * z)) by (nonlinear_arith);
    assert(size(m) * w * PARTS <= w * (l * PARTS + 2 * v) + w * (n * z));
    assert(size(m) * PARTS <= l * PARTS + 2 * v + n * z) by (nonlinear_arith)
        requires
            size(m) * w * PARTS <= w * (l * PARTS + 2 * v) + w * (n * z),
            w > 0,
    ;
    let k = 2 * c + 4;
    assert(n * z <= k * n * (PARTS + g)) by (nonlinear_arith)
        requires
            z == h * PARTS + k * g,
            h <= k,
            n >= 0,
    ;
    assert((k * n + 2) * (PARTS + g) == k * n * (PARTS + g) + 2 * PARTS + 2 * g) by (nonlinear_arith);
}

/// The scaling factor lies between zero and one, and is at most what either
/// limit asks for.
proof fn lemma_scale(fractions: Seq<Real>, c: PortfolioConstraints)
    requires
        sum_of_seq(sizes(fractions)).finite(),
        Real::whole(0) <= c.max_gross_exposure,
        Real::whole(0) <= c.max_net_exposure,
    ensures
        ({
            let s = exposure_scale(fractions, c);
            &&& s.finite()
            &&& 0 <= s.value() <= pow2(1074)
            &&& s.value() <= factor(sum_of_seq(sizes(fractions)), c.max_gross_exposure).value()
            &&& s.value() <= factor(sum_of_seq(fractions).abs(), c.max_net_exposure).value()
        }),
{
    assert(fractions.map_values(|f: Real| f.abs()) =~= sizes(fractions));
    lemma_sum_size(fractions);
    lemma_size_sum(fractions);
    lemma_factor(sum_of_seq(sizes(fractions)), c.max_gross_exposure);
    lemma_factor(sum_of_seq(fractions).abs(), c.max_net_exposure);
}

/// The size of a scaled position, and its signed size, are close to the
/// products. A fraction may exceed the position limit by a few roundings.
proof fn lemma_position(f: Real, s: Real, max: Real, k: nat, j: nat)
    requires
        f.finite(),
        s.finite(),
        0 <= s.value() <= pow2(1074),
        max.neg() <= max,
        (size(f.value()) - max.value()) * PARTS <= k * size(f.value()) + j * PARTS,
    ensures
        ({
            let y = (f * s).abs().min(max);
            let signed = if f * s >= Real::whole(0) {
                y
            } else {
                y.neg()
            };
            &&& near_product(y, f.abs(), s, 1 + k, 1 + j)
            &&& near_product(signed, f, s, 1 + k, 1 + j)
        }),
{
    let w = pow2(1074) as int;
    lemma_pow2_pos(1074);
    lemma_whole(0);
    assert(0 * w == 0);
    let p = f * s;
    lemma_mul_shrinks(f, s);
    let y = p.abs().min(max);
    let signed = if p >= Real::whole(0) {
        y
    } else {
        y.neg()
    };
    let (fv, sv, pv, yv) = (f.value(), s.value(), size(p.value()), y.value());
    assert(0 <= max.value());
    if max < p.abs() {
        assert(y == max);
        lemma_order_key(max, p.abs());
        lemma_units_zero(max.mag());
    }
    assert(y.finite());
    assert(0 <= yv <= pv);
    assert(signed.value() == if p.value() >= 0 { yv } else { -yv });
    let d = size(p.value() * w - fv * sv);
    assert(size(fv * sv) <= size(fv) * w) by (nonlinear_arith)
        requires
            0 <= sv <= w,
    ;
    assert(w * BINADE <= w * PARTS) by (nonlinear_arith)
        requires
            w > 0,
    ;
    assert(d * PARTS <= size(fv) * w + w * PARTS);
    let cut = pv - yv;
    assert(cut * PARTS <= k * size(fv) + j * PARTS) by {
        if y != p.abs() {
            assert((pv - yv) * PARTS <= (size(fv) - max.value()) * PARTS) by (nonlinear_arith)
                requires
                    pv <= size(fv),
                    yv == max.value(),
            ;
        } else {
            assert(cut == 0);
            assert(k * size(fv) >= 0) by (nonlinear_arith)
                requires
                    k >= 0,
                    size(fv) >= 0,
            ;
        }
    }
    assert((cut * w) * PARTS <= k * (size(fv) * w) + j * (w * PARTS)) by (nonlinear_arith)
        requires
            cut * PARTS <= k * size(fv) + j * PARTS,
            w > 0,
    ;
    assert((1 + k) * (size(fv) * w) == size(fv) * w + k * (size(fv) * w)) by (nonlinear_arith);
    assert((1 + j) * (w * PARTS) == w * PARTS + j * (w * PARTS)) by (nonlinear_arith);
    assert(yv * w == pv * w - cut * w) by (nonlinear_arith)
        requires
            cut == pv - yv,
    ;
    assert(cut * w >= 0) by (nonlinear_arith)
        requires
            cut >= 0,
            w > 0,
    ;
    if p.value() >= 0 {
        assert(fv * sv >= 0 || p.value() == 0) by {
            if fv < 0 {
                assert(p.value() <= 0);
            } else {
                assert(fv * sv >= 0) by (nonlinear_arith)
                    requires
                        fv >= 0,
                        sv >= 0,
                ;
            }
        }
    } else {
        assert(p.value() * w == -(pv * w)) by (nonlinear_arith)
            requires
                pv == -p.value(),
        ;
        assert(signed.value() * w == -(yv * w)) by (nonlinear_arith)
            requires
                signed.value() == -yv,
        ;
    }
    assert(size(signed.value() * w - fv * sv) <= d + cut * w);
    assert(size(yv * w - size(fv) * sv) <= d + cut * w) by {
        if fv < 0 {
            assert(size(fv) * sv == -(fv * sv)) by (nonlinear_arith)
                requires
                    size(fv) == -fv,
            ;
            assert(pv == -p.value());
            assert(p.value() * w == -(pv * w)) by (nonlinear_arith)
                requires
                    pv == -p.value(),
            ;
        } else {
            assert(pv == p.value());
        }
    }
    assert((d + cut * w) * PARTS == d * PARTS + (cut * w) * PARTS) by (nonlinear_arith);
    assert(size(signed.value() * w - fv * sv) * PARTS <= (d + cut * w) * PARTS);
    assert(size(yv * w - size(fv) * sv) * PARTS <= (d + cut * w) * PARTS);
}

/// The fraction is within the position limit, or not a number.
spec fn limited(f: Real, max: Real) -> bool {
    f.nan() || size(f.value()) <= max.value()
}

proof fn lemma_limited_candidates(
    dists: Seq<AssetDistribution>,
    n: nat,
    c: PortfolioConstraints,
    min_leg_elg: Real,
)
    requires
        c.admissible(),
    ensures
        forall|i: int|
            0 <= i < candidates_of(dists, n, c, min_leg_elg).len() ==> limited(
                (#[trigger] candidates_of(dists, n, c, min_leg_elg)[i]).f,
                c.max_position_fraction,
            ),
    decreases n,
{
    if n > 0 {
        let m = (n - 1) as nat;
        lemma_limited_candidates(dists, m, c, min_leg_elg);
        let before = candidates_of(dists, m, c, min_leg_elg);
        let all = candidates_of(dists, n, c, min_leg_elg);
        assert forall|i: int| 0 <= i < all.len() implies limited(
            (#[trigger] all[i]).f,
            c.max_position_fraction,
        ) by {
            if i < before.len() {
                assert(limited(before[i].f, c.max_position_fraction));
            } else {
                let ad = dists[m as int];
                lemma_best_fraction(ad.ensemble, ad.current_fraction, ad.estimated_tc_bps, c);
            }
        }
    }
}

proof fn lemma_best_fraction(
    dist: EnsembleDistribution,
    current: Real,
    tc_bps: Real,
    c: PortfolioConstraints,
)
    requires
        c.admissible(),
    ensures
        limited(best_fraction(dist, current, tc_bps, c), c.max_position_fraction),
{
}

/// What is selected and kept are candidates.
proof fn lemma_chosen_limited(
    dists: Seq<AssetDistribution>,
    nav: Real,
    c: PortfolioConstraints,
    cfg: ComboConfig,
)
    requires
        c.admissible(),
        dists.len() <= usize::MAX,
    ensures
        forall|i: int|
            0 <= i < chosen(dists, nav, c, cfg).len() ==> limited(
                (#[trigger] chosen(dists, nav, c, cfg)[i]).f,
                c.max_position_fraction,
            ),
{
    let cands = candidates_of(dists, dists.len(), c, cfg.min_leg_elg);
    lemma_candidates(dists, dists.len(), c, cfg.min_leg_elg);
    lemma_limited_candidates(dists, dists.len(), c, cfg.min_leg_elg);
    let k = if cfg.max_assets <= cands.len() {
        cfg.max_assets as nat
    } else {
        cands.len()
    };
    let set = selection(cands, cfg);
    if cfg.enumerate_subsets && cands.len() <= 10 {
        exhaustive_search_is_optimal(cands, k, cfg.max_total_tc_bps, Seq::empty());
    } else {
        lemma_stable_order_places(
            cands.map_values(|x: AssetCandidate| x.net_score().neg()),
            cands.len(),
        );
        lemma_greedy_cost(cands, ranking(cands), k, cfg.max_total_tc_bps);
    }
    lemma_kept(cands, dists, set, set.len(), cfg.max_traded_assets as nat);
    let kept = trimmed_of(cands, dists, set, set.len(), cfg.max_traded_assets as nat).1;
    let xs = chosen(dists, nav, c, cfg);
    assert forall|i: int| 0 <= i < xs.len() implies limited(
        (#[trigger] xs[i]).f,
        c.max_position_fraction,
    ) by {
        assert(kept[i] < cands.len());
        assert(xs[i] == cands[kept[i] as int]);
    }
}

/// Every candidate is the one that the distribution at its place makes.
proof fn lemma_candidate_places(
    dists: Seq<AssetDistribution>,
    n: nat,
    c: PortfolioConstraints,
    min_leg_elg: Real,
)
    requires
        n <= dists.len() <= usize::MAX,
    ensures
        forall|i: int|
            0 <= i < candidates_of(dists, n, c, min_leg_elg).len() ==> {
                let x = #[trigger] candidates_of(dists, n, c, min_leg_elg)[i];
                x.place < n && candidate_at(dists, x.place as int, c, min_leg_elg) == Some(x)
            },
    decreases n,
{
    if n > 0 {
        let m = (n - 1) as nat;
        lemma_candidate_places(dists, m, c, min_leg_elg);
        let before = candidates_of(dists, m, c, min_leg_elg);
        let all = candidates_of(dists, n, c, min_leg_elg);
        assert forall|i: int| 0 <= i < all.len() implies {
            let x = #[trigger] all[i];
            x.place < n && candidate_at(dists, x.place as int, c, min_leg_elg) == Some(x)
        } by {
            if i < before.len() {
                assert(all[i] == before[i]);
            }
        }
    }
}

/// Every chosen candidate is the one that the distribution at its place makes.
pub(crate) proof fn lemma_chosen_places(
    dists: Seq<AssetDistribution>,
    nav: Real,
    c: PortfolioConstraints,
    cfg: ComboConfig,
)
    requires
        dists.len() <= usize::MAX,
    ensures
        forall|i: int|
            0 <= i < chosen(dists, nav, c, cfg).len() ==> {
                let x = #[trigger] chosen(dists, nav, c, cfg)[i];
                x.place < dists.len() && candidate_at(dists, x.place as int, c, cfg.min_leg_elg)
                    == Some(x)
            },
{
    let cands = candidates_of(dists, dists.len(), c, cfg.min_leg_elg);
    lemma_candidates(dists, dists.len(), c, cfg.min_leg_elg);
    lemma_candidate_places(dists, dists.len(), c, cfg.min_leg_elg);
    let k = if cfg.max_assets <= cands.len() {
        cfg.max_assets as nat
    } else {
        cands.len()
    };
    let set = selection(cands, cfg);
    if cfg.enumerate_subsets && cands.len() <= 10 {
        exhaustive_search_is_optimal(cands, k, cfg.max_total_tc_bps, Seq::empty());
    } else {
        lemma_stable_order_places(
            cands.map_values(|x: AssetCandidate| x.net_score().neg()),
            cands.len(),
        );
        lemma_greedy_cost(cands, ranking(cands), k, cfg.max_total_tc_bps);
    }
    lemma_kept(cands, dists, set, set.len(), cfg.max_traded_assets as nat);
    let kept = trimmed_of(cands, dists, set, set.len(), cfg.max_traded_assets as nat).1;
    let xs = chosen(dists, nav, c, cfg);
    assert forall|i: int| 0 <= i < xs.len() implies {
        let x = #[trigger] xs[i];
        x.place < dists.len() && candidate_at(dists, x.place as int, c, cfg.min_leg_elg) == Some(x)
    } by {
        assert(kept[i] < cands.len());
        assert(xs[i] == cands[kept[i] as int]);
    }
}

proof fn lemma_kept(
    cands: Seq<AssetCandidate>,
    dists: Seq<AssetDistribution>,
    set: Seq<usize>,
    n: nat,
    limit: nat,
)
    requires
        n <= set.len(),
        forall|i: int| 0 <= i < set.len() ==> (#[trigger] set[i]) < cands.len(),
    ensures
        forall|i: int|
            0 <= i < trimmed_of(cands, dists, set, n, limit).1.len() ==> (#[trigger] trimmed_of(
                cands,
                dists,
                set,
                n,
                limit,
            ).1[i]) < cands.len(),
    decreases n,
{
    if n > 0 {
        lemma_kept(cands, dists, set, (n - 1) as nat, limit);
        let before = trimmed_of(cands, dists, set, (n - 1) as nat, limit).1;
        let kept = trimmed_of(cands, dists, set, n, limit).1;
        assert forall|i: int| 0 <= i < kept.len() implies (#[trigger] kept[i]) < cands.len() by {
            if i < before.len() {
                assert(before[i] < cands.len());
            } else {
                assert(set[n - 1] < cands.len());
            }
        }
    }
}

/// The gross exposure of fractions.
pub open spec fn gross_of(fractions: Seq<Real>) -> Real {
    sum_of_seq(sizes(fractions))
}

/// The fraction of a leg is that of its candidate, scaled.
proof fn lemma_leg_position(
    order: ComboOrder,
    dists: Seq<AssetDistribution>,
    nav: Real,
    c: PortfolioConstraints,
    cfg: ComboConfig,
    i: int,
)
    requires
        is_order(order, dists, nav, c, cfg),
        c.admissible(),
        dists.len() <= usize::MAX,
        Real::whole(0) <= c.max_gross_exposure,
        Real::whole(0) <= c.max_net_exposure,
        gross_of(fractions_of(chosen(dists, nav, c, cfg))).finite(),
        0 <= i < order.legs@.len(),
    ensures
        ({
            let fr = fractions_of(chosen(dists, nav, c, cfg));
            let s = exposure_scale(fr, c);
            let leg = order.legs@[i];
            &&& fr[i].finite()
            &&& near_product(leg.position_fraction, fr[i].abs(), s, 1, 1)
            &&& near_product(signed_fraction(leg), fr[i], s, 1, 1)
            &&& leg.position_fraction.value() == size((fr[i] * s).value())
            &&& signed_fraction(leg).value() == (fr[i] * s).value()
        }),
{
    let xs = chosen(dists, nav, c, cfg);
    let fr = fractions_of(xs);
    let s = exposure_scale(fr, c);
    lemma_scale(fr, c);
    lemma_sum_size(fr);
    lemma_chosen_limited(dists, nav, c, cfg);
    let max = c.max_position_fraction;
    assert(is_leg(order.legs@[i], xs[i], dists[xs[i].place as int], s, c, nav));
    assert(fr[i].finite());
    assert(limited(xs[i].f, max));
    lemma_position(fr[i], s, max, 0, 0);
    lemma_mul_shrinks(fr[i], s);
    lemma_whole(0);
    assert(0 * pow2(1074) == 0);
}

/// Gross and net exposure of an order stay within their limits: exactly where
/// the chosen fractions already do, and up to rounding where they are scaled.
/// Fractions that are not numbers, and a gross exposure beyond the range of
/// numbers, are excluded: such fractions are not scaled.
pub proof fn order_keeps_exposure(
    order: ComboOrder,
    dists: Seq<AssetDistribution>,
    nav: Real,
    c: PortfolioConstraints,
    cfg: ComboConfig,
)
    requires
        is_order(order, dists, nav, c, cfg),
        c.admissible(),
        dists.len() <= usize::MAX,
        Real::whole(0) <= c.max_gross_exposure,
        Real::whole(0) <= c.max_net_exposure,
        gross_of(fractions_of(chosen(dists, nav, c, cfg))).finite(),
    ensures
        ({
            let fractions = fractions_of(chosen(dists, nav, c, cfg));
            let gross = gross_of(fractions);
            let roundings = 6 * order.legs@.len() + 2;
            &&& within_rounding(
                size(order.gross_exposure_fraction.value()),
                c.max_gross_exposure,
                gross,
                roundings,
            )
            &&& within_rounding(
                size(order.net_exposure_fraction.value()),
                c.max_net_exposure,
                gross,
                roundings,
            )
            &&& gross <= c.max_gross_exposure && sum_of_seq(fractions).abs() <= c.max_net_exposure
                ==> order.gross_exposure_fraction <= c.max_gross_exposure
                && order.net_exposure_fraction.abs() <= c.max_net_exposure
        }),
{
    let xs = chosen(dists, nav, c, cfg);
    let fr = fractions_of(xs);
    let s = exposure_scale(fr, c);
    lemma_scale(fr, c);
    lemma_sum_size(fr);
    lemma_size_sum(fr);
    let a = sizes(fr);
    assert(sizes(a) =~= a);
    let b = order.legs@.map_values(|l: OrderLeg| l.position_fraction);
    let t = order.legs@.map_values(|l: OrderLeg| signed_fraction(l));
    assert forall|i: int| 0 <= i < fr.len() implies near_product(#[trigger] b[i], a[i], s, 1, 1) by {
        lemma_leg_position(order, dists, nav, c, cfg, i);
    }
    assert forall|i: int| 0 <= i < fr.len() implies near_product(#[trigger] t[i], fr[i], s, 1, 1) by {
        lemma_leg_position(order, dists, nav, c, cfg, i);
    }
    lemma_limited(a, b, s, sum_of_seq(a), c.max_gross_exposure, 1, 1);
    lemma_limited(fr, t, s, sum_of_seq(fr).abs(), c.max_net_exposure, 1, 1);
    if gross_of(fr) <= c.max_gross_exposure && sum_of_seq(fr).abs() <= c.max_net_exposure {
        assert(fr.map_values(|f: Real| f.abs()) =~= a);
        lemma_whole(1);
        assert(s == Real::whole(1));
        assert forall|i: int| 0 <= i < fr.len() implies (#[trigger] b[i]).finite() && b[i].value()
            == a[i].value() by {
            lemma_leg_position(order, dists, nav, c, cfg, i);
            lemma_mul_one(fr[i]);
        }
        assert forall|i: int| 0 <= i < fr.len() implies (#[trigger] t[i]).finite() && t[i].value()
            == fr[i].value() by {
            lemma_leg_position(order, dists, nav, c, cfg, i);
            lemma_mul_one(fr[i]);
        }
        lemma_same_sum(a, b);
        lemma_same_sum(fr, t);
    }
}

/// A product of numbers that are not negative is at most as much larger than
/// the exact one as rounding allows, here over whole factors.
proof fn lemma_times(x: Real, y: Real, k: int)
    requires
        (x * y).finite(),
        x.value() >= 0,
        k >= 0,
        y.value() == k * pow2(1074),
    ensures
        x.finite(),
        (x * y).value() >= 0,
        (x * y).value() * PARTS <= k * x.value() * PARTS + k * x.value() + BINADE,
{
    let w = pow2(1074) as int;
    lemma_pow2_pos(1074);
    assert(k * w >= 0) by (nonlinear_arith)
        requires
            k >= 0,
            w > 0,
    ;
    lemma_mul_close(x, y);
    let (p, v) = ((x * y).value(), x.value());
    assert(v * y.value() == w * (k * v)) by (nonlinear_arith)
        requires
            y.value() == k * w,
    ;
    assert((p * w - w * (k * v)) * PARTS <= w * (k * v) + w * BINADE);
    assert(p * PARTS <= k * v * PARTS + k * v + BINADE) by (nonlinear_arith)
        requires
            (p * w - w * (k * v)) * PARTS <= w * (k * v) + w * BINADE,
            w > 0,
    ;
}

/// A grid point exceeds the position limit by no more than a few roundings.
proof fn lemma_grid_point(max: Real, i: int)
    requires
        max.neg() <= max,
        0 <= i <= 40,
        grid_point(max, i).finite(),
    ensures
        (size(grid_point(max, i).value()) - max.value()) * PARTS <= 16 * size(
            grid_point(max, i).value(),
        ) + 2 * PARTS,
{
    let w = pow2(1074) as int;
    lemma_pow2_pos(1074);
    let f = grid_point(max, i);
    let t1 = Real::whole(2) * max;
    let t2 = t1 * Real::count(i as usize);
    let t3 = t2 / Real::count(40);
    lemma_whole(2);
    lemma_count(i as usize);
    lemma_count(40);
    lemma_whole(i as i64);
    lemma_whole(40);
    let m = max.value();
    assert(m >= 0);
    lemma_units_zero(0);
    assert(max.finite() && t3.finite()) by {
        reveal(Real::spec_add);
    }
    assert(t2.finite() || t2.nan() || t2.infinite());
    assert(t2.finite()) by {
        reveal(Real::spec_div);
    }
    assert(Real::whole(2) * max == max * Real::whole(2)) by {
        reveal(Real::spec_mul);
        assert(mag_units(Real::whole(2).mag()) * mag_units(max.mag()) == mag_units(max.mag())
            * mag_units(Real::whole(2).mag())) by (nonlinear_arith);
    }
    assert(t1.finite()) by {
        reveal(Real::spec_mul);
    }
    lemma_times(max, Real::whole(2), 2);
    lemma_times(t1, Real::count(i as usize), i);
    assert(40 * w > 0);
    lemma_div_close(t2, Real::count(40));
    let (v1, v2, v3) = (t1.value(), t2.value(), t3.value());
    assert(40 * v3 * PARTS <= v2 * PARTS + v2 + 40 * BINADE) by (nonlinear_arith)
        requires
            size(v3 * (40 * w) - v2 * w) * PARTS <= v2 * w + (40 * w) * BINADE,
            w > 0,
    ;
    assert(v2 * PARTS <= 40 * v1 * PARTS + 40 * v1 + BINADE) by (nonlinear_arith)
        requires
            v2 * PARTS <= i * v1 * PARTS + i * v1 + BINADE,
            i <= 40,
            v1 >= 0,
    ;
    assert(v3 * PARTS <= 2 * m * PARTS + 14 * m + 3 * BINADE + 3);
    let s = max.neg().value() + v3;
    assert(max.neg().value() == -m);
    lemma_add_mag(max.neg(), t3);
    lemma_add_close(max.neg(), t3);
    if s >= 0 {
        assert(size(f.value()) == f.value());
        if f.value() > m {
            assert((f.value() - s) * PARTS <= s);
            assert(s <= 2 * m + 2);
        } else {
            assert((f.value() - m) * PARTS <= 0);
        }
    } else {
        lemma_round_monotone(size(s) as nat, 1, m as nat, 1);
        lemma_round_exact(max.mag());
        lemma_units_order(f.mag(), max.mag());
        assert((size(f.value()) - m) * PARTS <= 0);
    }
}

/// The fraction over a horizon exceeds the position limit by no more than a few
/// roundings.
proof fn lemma_dp_fraction(
    dist: EnsembleDistribution,
    current: Real,
    c: PortfolioConstraints,
    horizon: nat,
)
    requires
        c.admissible(),
        dp_fraction(dist, current, c, horizon).finite(),
    ensures
        ({
            let f = size(dp_fraction(dist, current, c, horizon).value());
            (f - c.max_position_fraction.value()) * PARTS <= 16 * f + 2 * PARTS
        }),
{
    if horizon <= 1 {
        lemma_best_fraction(dist, current, c.transaction_cost_bps, c);
    } else {
        let fmax = c.max_position_fraction;
        let values = stage_values(dist, c, (horizon - 1) as nat);
        let from = grid_point(fmax, nearest_point(current, fmax) as int);
        let totals = Seq::new(
            GRID as nat,
            |i: int| step_value(dist, c, from, grid_point(fmax, i), values[i]),
        );
        lemma_last_max_place(totals);
        lemma_grid_point(fmax, last_max(totals));
    }
}

/// Taking an element out of a sequence takes its value out of the sum.
proof fn lemma_exact_remove(s: Seq<Real>, p: int)
    requires
        0 <= p < s.len(),
    ensures
        exact_sum(s) == exact_sum(s.remove(p)) + s[p].value(),
    decreases s.len(),
{
    let r = s.remove(p);
    if p == s.len() - 1 {
        assert(r =~= s.drop_last());
    } else {
        assert(r.drop_last() =~= s.drop_last().remove(p));
        lemma_exact_remove(s.drop_last(), p);
    }
}

/// Sorting does not change the exact sum.
proof fn lemma_sorted_sum(keys: Seq<Real>, n: nat, v: Seq<Real>, t: Seq<Real>)
    requires
        n <= keys.len() <= usize::MAX,
        n <= v.len(),
        t.len() == n,
        forall|i: int| 0 <= i < n ==> #[trigger] t[i] == v[stable_order_of(keys, n)[i] as int],
    ensures
        exact_sum(t) == exact_sum(v.take(n as int)),
    decreases n,
{
    if n > 0 {
        let m = (n - 1) as nat;
        let o = stable_order_of(keys, m);
        let all = stable_order_of(keys, n);
        let p = slot(keys, o, keys[m as int]);
        lemma_stable_order_places(keys, m);
        lemma_slot(keys, o, keys[m as int]);
        assert(all == o.insert(p, m as usize));
        let r = t.remove(p);
        assert forall|i: int| 0 <= i < m implies #[trigger] r[i] == v[o[i] as int] by {
            if i < p {
                assert(t[i] == v[all[i] as int]);
                assert(all[i] == o[i]);
            } else {
                assert(t[i + 1] == v[all[i + 1] as int]);
                assert(all[i + 1] == o[i]);
            }
        }
        lemma_sorted_sum(keys, m, v, r);
        assert(t[p] == v[all[p] as int]);
        lemma_exact_remove(t, p);
        assert(v.take(n as int).drop_last() =~= v.take(m as int));
    }
}

/// The fraction of a decision, negative for a short one.
pub open spec fn signed_decision(d: TradeDecision) -> Real {
    if d.direction == Direction::Long {
        d.position_fraction
    } else {
        d.position_fraction.neg()
    }
}

/// Gross and net exposure of the decisions over a horizon, added up exactly,
/// stay within their limits up to rounding. Fractions that are not numbers, and
/// a gross exposure beyond the range of numbers, are excluded: such fractions
/// are not scaled.
pub proof fn decisions_keep_exposure(
    r: Seq<TradeDecision>,
    dists: Seq<(String, EnsembleDistribution)>,
    portfolio: PortfolioState,
    c: PortfolioConstraints,
    horizon: nat,
)
    requires
        are_decisions(r, dists, portfolio, c, horizon),
        c.admissible(),
        dists.len() <= usize::MAX,
        Real::whole(0) <= c.max_gross_exposure,
        Real::whole(0) <= c.max_net_exposure,
        gross_of(
            fractions_of(dp_candidates_of(dists, dists.len(), portfolio, c, horizon)),
        ).finite(),
    ensures
        ({
            let gross = gross_of(
                fractions_of(dp_candidates_of(dists, dists.len(), portfolio, c, horizon)),
            );
            let roundings = 38 * dists.len() + 2;
            &&& within_rounding(
                size(exact_sum(r.map_values(|d: TradeDecision| d.position_fraction))),
                c.max_gross_exposure,
                gross,
                roundings,
            )
            &&& within_rounding(
                size(exact_sum(r.map_values(|d: TradeDecision| signed_decision(d)))),
                c.max_net_exposure,
                gross,
                roundings,
            )
        }),
{
    let xs = dp_candidates_of(dists, dists.len(), portfolio, c, horizon);
    let fr = fractions_of(xs);
    let s = exposure_scale(fr, c);
    let n = xs.len();
    lemma_dp_candidates(dists, dists.len(), portfolio, c, horizon);
    lemma_scale(fr, c);
    lemma_sum_size(fr);
    lemma_size_sum(fr);
    lemma_whole(0);
    assert(0 * pow2(1074) == 0);
    let max = c.max_position_fraction;
    let a = sizes(fr);
    assert(sizes(a) =~= a);
    let b = Seq::new(n, |i: int| (fr[i] * s).abs().min(max));
    let t = Seq::new(
        n,
        |i: int|
            if fr[i] * s >= Real::whole(0) {
                (fr[i] * s).abs().min(max)
            } else {
                (fr[i] * s).abs().min(max).neg()
            },
    );
    assert forall|i: int| 0 <= i < n implies near_product(#[trigger] b[i], a[i], s, 17, 3) by {
        assert(fr[i].finite());
        assert(nearly_limited(xs[i].f, max));
        lemma_position(fr[i], s, max, 16, 2);
    }
    assert forall|i: int| 0 <= i < n implies near_product(#[trigger] t[i], fr[i], s, 17, 3) by {
        assert(fr[i].finite());
        assert(nearly_limited(xs[i].f, max));
        lemma_position(fr[i], s, max, 16, 2);
    }
    assert(is_scaled(b, a, s, 17, 3));
    assert(is_scaled(t, fr, s, 17, 3));
    lemma_limited(a, b, s, sum_of_seq(a), c.max_gross_exposure, 17, 3);
    lemma_limited(fr, t, s, sum_of_seq(fr).abs(), c.max_net_exposure, 17, 3);
    let g = gross_of(fr);
    assert((38 * n + 2) * (PARTS + g.value()) <= (38 * dists.len() + 2) * (PARTS + g.value()))
        by (nonlinear_arith)
        requires
            n <= dists.len(),
            g.value() >= 0,
    ;
    let sizes_r = r.map_values(|d: TradeDecision| d.position_fraction);
    let signed_r = r.map_values(|d: TradeDecision| signed_decision(d));
    if portfolio.nav < Real::whole(1) {
        assert(exact_sum(sizes_r) == 0 && exact_sum(signed_r) == 0);
        assert((38 * dists.len() + 2) * (PARTS + g.value()) >= 0) by (nonlinear_arith)
            requires
                g.value() >= 0,
        ;
        assert(c.max_gross_exposure.value() * PARTS >= 0);
        assert(c.max_net_exposure.value() * PARTS >= 0);
    } else {
        let keys = xs.map_values(|x: AssetCandidate| x.elg.neg());
        let order = stable_order_of(keys, n);
        lemma_stable_order_places(keys, n);
        assert forall|i: int| 0 <= i < n implies #[trigger] sizes_r[i] == b[order[i] as int] by {
            assert(is_decision(r[i], xs[order[i] as int], dists, s, c, portfolio.nav));
        }
        assert forall|i: int| 0 <= i < n implies #[trigger] signed_r[i] == t[order[i] as int] by {
            assert(is_decision(r[i], xs[order[i] as int], dists, s, c, portfolio.nav));
        }
        lemma_sorted_sum(keys, n, b, sizes_r);
        lemma_sorted_sum(keys, n, t, signed_r);
        assert(b.take(n as int) =~= b);
        assert(t.take(n as int) =~= t);
    }
}

/// The fraction exceeds the position limit by no more than a few roundings, or
/// is no finite number.
spec fn nearly_limited(f: Real, max: Real) -> bool {
    f.finite() ==> (size(f.value()) - max.value()) * PARTS <= 16 * size(f.value()) + 2 * PARTS
}

proof fn lemma_dp_candidates(
    dists: Seq<(String, EnsembleDistribution)>,
    n: nat,
    portfolio: PortfolioState,
    c: PortfolioConstraints,
    horizon: nat,
)
    requires
        c.admissible(),
    ensures
        dp_candidates_of(dists, n, portfolio, c, horizon).len() <= n,
        forall|i: int|
            0 <= i < dp_candidates_of(dists, n, portfolio, c, horizon).len() ==> nearly_limited(
                (#[trigger] dp_candidates_of(dists, n, portfolio, c, horizon)[i]).f,
                c.max_position_fraction,
            ),
    decreases n,
{
    if n > 0 {
        let m = (n - 1) as nat;
        lemma_dp_candidates(dists, m, portfolio, c, horizon);
        let before = dp_candidates_of(dists, m, portfolio, c, horizon);
        let all = dp_candidates_of(dists, n, portfolio, c, horizon);
        assert forall|i: int| 0 <= i < all.len() implies nearly_limited(
            (#[trigger] all[i]).f,
            c.max_position_fraction,
        ) by {
            if i < before.len() {
                assert(nearly_limited(before[i].f, c.max_position_fraction));
            } else {
                let held = held_fraction(portfolio, dists[m as int].0@);
                if all[i].f.finite() {
                    lemma_dp_fraction(dists[m as int].1, held, c, horizon);
                }
            }
        }
    }
}

} // verus!
