//! What every joint order keeps.
use vstd::prelude::*;

use crate::ensemble::distribution::EnsembleDistribution;
use crate::num::order::{
    lemma_add_grows, lemma_add_monotone, lemma_add_not_negative, lemma_whole,
};
use crate::num::series::{sum_of_seq, tally};
use crate::num::Real;
use crate::optimizer::kelly::{
    are_decisions, candidates_of, chosen, dp_candidates_of, exhaustive_search_is_optimal,
    greedy_of, is_order, ranking, selection, trimmed_of, AssetCandidate,
};
use crate::optimizer::types::{
    AssetDistribution, ComboConfig, ComboOrder, PortfolioConstraints, TradeDecision,
};
use crate::risk::manager::PortfolioState;

verus! {

proof fn lemma_trimmed(
    cands: Seq<AssetCandidate>,
    dists: Seq<AssetDistribution>,
    set: Seq<usize>,
    n: nat,
    limit: nat,
)
    requires
        n <= set.len(),
    ensures
        trimmed_of(cands, dists, set, n, limit).1.len() <= n,
    decreases n,
{
    if n > 0 {
        lemma_trimmed(cands, dists, set, (n - 1) as nat, limit);
    }
}

proof fn lemma_greedy(cands: Seq<AssetCandidate>, ranked: Seq<usize>, n: nat, max_tc: Real)
    ensures
        greedy_of(cands, ranked, n, max_tc).1.len() <= n,
    decreases n,
{
    if n > 0 {
        lemma_greedy(cands, ranked, (n - 1) as nat, max_tc);
    }
}

/// An order has no more legs than the configuration allows, the fraction of every
/// leg lies between zero and the position limit, and every leverage between one
/// and the cap unless it is not a number.
pub proof fn order_keeps_limits(
    order: ComboOrder,
    dists: Seq<AssetDistribution>,
    nav: Real,
    c: PortfolioConstraints,
    cfg: ComboConfig,
)
    requires
        is_order(order, dists, nav, c, cfg),
        c.admissible(),
        dists.len() <= usize::MAX,
    ensures
        order.legs@.len() <= cfg.max_assets,
        forall|i: int|
            0 <= i < order.legs@.len() ==> {
                let x = (#[trigger] order.legs@[i]).position_fraction;
                Real::whole(0) <= x && x <= c.max_position_fraction
            },
        forall|i: int|
            0 <= i < order.legs@.len() ==> {
                let l = (#[trigger] order.legs@[i]).leverage;
                l.nan() || (Real::whole(1) <= l && l <= c.max_leverage)
            },
{
    let cands = candidates_of(dists, dists.len(), c, cfg.min_leg_elg);
    lemma_candidates(dists, dists.len(), c, cfg.min_leg_elg);
    let set = selection(cands, cfg);
    let k = if cfg.max_assets <= cands.len() {
        cfg.max_assets as nat
    } else {
        cands.len()
    };
    exhaustive_search_is_optimal(cands, k, cfg.max_total_tc_bps, Seq::empty());
    lemma_greedy(cands, ranking(cands), k, cfg.max_total_tc_bps);
    lemma_trimmed(cands, dists, set, set.len(), cfg.max_traded_assets as nat);
    let xs = chosen(dists, nav, c, cfg);
    lemma_whole(0);
    lemma_whole(1);
}

/// The fraction of every decision lies between zero and the position limit, and
/// every leverage between one and the cap unless it is not a number.
pub proof fn decisions_keep_limits(
    r: Seq<TradeDecision>,
    dists: Seq<(String, EnsembleDistribution)>,
    portfolio: PortfolioState,
    c: PortfolioConstraints,
    horizon: nat,
)
    requires
        are_decisions(r, dists, portfolio, c, horizon),
        c.admissible(),
    ensures
        r.len() <= dists.len(),
        forall|i: int|
            0 <= i < r.len() ==> {
                let x = (#[trigger] r[i]).position_fraction;
                Real::whole(0) <= x && x <= c.max_position_fraction
            },
        forall|i: int|
            0 <= i < r.len() ==> {
                let l = (#[trigger] r[i]).leverage;
                l.nan() || (Real::whole(1) <= l && l <= c.max_leverage)
            },
{
    lemma_whole(0);
    lemma_whole(1);
    lemma_dp_candidate_count(dists, dists.len(), portfolio, c, horizon);
}

proof fn lemma_dp_candidate_count(
    dists: Seq<(String, EnsembleDistribution)>,
    n: nat,
    portfolio: PortfolioState,
    c: PortfolioConstraints,
    horizon: nat,
)
    ensures
        dp_candidates_of(dists, n, portfolio, c, horizon).len() <= n,
    decreases n,
{
    if n > 0 {
        lemma_dp_candidate_count(dists, (n - 1) as nat, portfolio, c, horizon);
    }
}

pub(crate) proof fn lemma_candidates(
    dists: Seq<AssetDistribution>,
    n: nat,
    c: PortfolioConstraints,
    min_leg_elg: Real,
)
    ensures
        candidates_of(dists, n, c, min_leg_elg).len() <= n,
    decreases n,
{
    if n > 0 {
        lemma_candidates(dists, (n - 1) as nat, c, min_leg_elg);
    }
}

/// The costs of a list of candidates.
pub open spec fn costs(cands: Seq<AssetCandidate>, set: Seq<usize>) -> Seq<Real> {
    set.map_values(|i: usize| cands[i as int].tc_bps)
}

/// No candidate has a negative cost.
pub open spec fn costs_not_negative(cands: Seq<AssetCandidate>) -> bool {
    forall|i: int| 0 <= i < cands.len() ==> Real::whole(0) <= (#[trigger] cands[i]).tc_bps
}

spec fn not_negative(s: Seq<Real>) -> bool {
    forall|i: int| 0 <= i < s.len() ==> Real::whole(0) <= #[trigger] s[i]
}

/// Adding up from zero and from negative zero gives equal sums of numbers that
/// are not negative.
proof fn lemma_tally_is_sum(s: Seq<Real>)
    requires
        not_negative(s),
    ensures
        Real::whole(0) <= tally(s),
        tally(s) <= sum_of_seq(s),
        sum_of_seq(s) <= tally(s),
    decreases s.len(),
{
    lemma_whole(0);
    if s.len() == 0 {
        crate::num::magnitude::lemma_units_zero(0);
    } else {
        let t = s.drop_last();
        assert forall|i: int| 0 <= i < t.len() implies Real::whole(0) <= #[trigger] t[i] by {
            assert(Real::whole(0) <= s[i]);
        }
        lemma_tally_is_sum(t);
        let x = s.last();
        assert(Real::whole(0) <= s[s.len() - 1]);
        lemma_add_not_negative(tally(t), x);
        lemma_add_not_negative(sum_of_seq(t), x);
        lemma_add_monotone(tally(t), sum_of_seq(t), x);
        lemma_add_monotone(sum_of_seq(t), tally(t), x);
    }
}

/// Leaving out legs does not make the sum of their costs larger.
proof fn lemma_trimmed_cost(
    cands: Seq<AssetCandidate>,
    dists: Seq<AssetDistribution>,
    set: Seq<usize>,
    n: nat,
    limit: nat,
)
    requires
        n <= set.len(),
        costs_not_negative(cands),
        forall|i: int| 0 <= i < set.len() ==> (#[trigger] set[i]) < cands.len(),
    ensures
        ({
            let kept = trimmed_of(cands, dists, set, n, limit).1;
            &&& Real::whole(0) <= tally(costs(cands, kept))
            &&& tally(costs(cands, kept)) <= tally(costs(cands, set.take(n as int)))
        }),
    decreases n,
{
    lemma_whole(0);
    if n == 0 {
        assert(costs(cands, set.take(0)) =~= Seq::empty());
        assert(costs(cands, Seq::empty()) =~= Seq::empty());
    } else {
        let m = (n - 1) as nat;
        lemma_trimmed_cost(cands, dists, set, m, limit);
        let before = trimmed_of(cands, dists, set, m, limit).1;
        let kept = trimmed_of(cands, dists, set, n, limit).1;
        let x = cands[set[m as int] as int].tc_bps;
        assert(Real::whole(0) <= cands[set[m as int] as int].tc_bps);
        let all = costs(cands, set.take(n as int));
        assert(all.drop_last() =~= costs(cands, set.take(m as int)));
        assert(all.last() == x);
        let a = tally(costs(cands, before));
        let b = tally(costs(cands, set.take(m as int)));
        lemma_add_not_negative(a, x);
        lemma_add_not_negative(b, x);
        lemma_add_monotone(a, b, x);
        lemma_add_grows(a, x);
        if kept != before {
            let ks = costs(cands, kept);
            assert(ks.drop_last() =~= costs(cands, before));
            assert(ks.last() == x);
        }
    }
}

/// Greedy selection's running cost is the sum of the costs it selected, within
/// the budget as soon as anything is selected.
pub(crate) proof fn lemma_greedy_cost(cands: Seq<AssetCandidate>, ranked: Seq<usize>, n: nat, max_tc: Real)
    requires
        n <= ranked.len(),
        forall|i: int| 0 <= i < ranked.len() ==> (#[trigger] ranked[i]) < cands.len(),
    ensures
        ({
            let (cost, set) = greedy_of(cands, ranked, n, max_tc);
            &&& cost == tally(costs(cands, set))
            &&& set.len() > 0 ==> !(cost > max_tc)
            &&& forall|i: int| 0 <= i < set.len() ==> (#[trigger] set[i]) < cands.len()
        }),
    decreases n,
{
    if n == 0 {
        assert(costs(cands, Seq::empty()) =~= Seq::empty());
    } else {
        let m = (n - 1) as nat;
        lemma_greedy_cost(cands, ranked, m, max_tc);
        let (cost, set) = greedy_of(cands, ranked, m, max_tc);
        let (cost1, set1) = greedy_of(cands, ranked, n, max_tc);
        if set1 != set {
            assert(costs(cands, set1).drop_last() =~= costs(cands, set));
        }
    }
}

/// The total cost of an order stays within the budget, whichever way its legs
/// were selected. A candidate of negative cost is excluded: leaving it out for
/// the limit on traded legs would raise the total.
pub proof fn order_keeps_cost_budget(
    order: ComboOrder,
    dists: Seq<AssetDistribution>,
    nav: Real,
    c: PortfolioConstraints,
    cfg: ComboConfig,
)
    requires
        is_order(order, dists, nav, c, cfg),
        order.legs@.len() > 0,
        dists.len() <= usize::MAX,
        costs_not_negative(candidates_of(dists, dists.len(), c, cfg.min_leg_elg)),
    ensures
        !(order.total_tc_bps > cfg.max_total_tc_bps),
{
    let max_tc = cfg.max_total_tc_bps;
    let cands = candidates_of(dists, dists.len(), c, cfg.min_leg_elg);
    lemma_candidates(dists, dists.len(), c, cfg.min_leg_elg);
    let k = if cfg.max_assets <= cands.len() {
        cfg.max_assets as nat
    } else {
        cands.len()
    };
    let set = selection(cands, cfg);
    let limit = cfg.max_traded_assets as nat;
    let kept = trimmed_of(cands, dists, set, set.len(), limit).1;
    let xs = chosen(dists, nav, c, cfg);
    lemma_trimmed(cands, dists, set, set.len(), limit);
    assert(set.len() > 0);
    if cfg.enumerate_subsets && cands.len() <= 10 {
        exhaustive_search_is_optimal(cands, k, max_tc, Seq::empty());
        assert(costs(cands, set) =~= set.map_values(|i: usize| cands[i as int].tc_bps));
        assert forall|i: int| 0 <= i < set.len() implies Real::whole(0) <= #[trigger] costs(
            cands,
            set,
        )[i] by {
            assert(Real::whole(0) <= cands[set[i] as int].tc_bps);
        }
        lemma_tally_is_sum(costs(cands, set));
    } else {
        crate::num::series::lemma_stable_order_places(
            cands.map_values(|x: AssetCandidate| x.net_score().neg()),
            cands.len(),
        );
        lemma_greedy_cost(cands, ranking(cands), k, max_tc);
    }
    assert(!(tally(costs(cands, set)) > max_tc));
    lemma_trimmed_cost(cands, dists, set, set.len(), limit);
    assert(set.take(set.len() as int) =~= set);
    assert(xs.map_values(|x: AssetCandidate| x.tc_bps) =~= costs(cands, kept));
}

} // verus!
