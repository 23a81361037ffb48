//! What the portfolio's figures are, and what the checks keep of them.
use vstd::arithmetic::power2::*;
use vstd::prelude::*;

use crate::data::table::Table;
use crate::num::drift::{exact_sum, lemma_at_most_one, size, sizes, PARTS};
use crate::num::magnitude::lemma_units_zero;
use crate::num::model::BINADE;
use crate::num::ops::lemma_order_key;
use crate::num::order::{
    lemma_add_monotone, lemma_div_monotone, lemma_neg_order, lemma_whole, lemma_whole_below_ratio,
    lemma_whole_order,
};
use crate::num::rules::{
    is_product, is_quotient, is_sum, lemma_between, lemma_difference_sign, lemma_finite_factors,
    lemma_finite_terms, lemma_negated_factor, lemma_operations_are_close, lemma_over_itself,
    lemma_plus_zero, lemma_product_near, lemma_quotient_near, lemma_small_ratio, lemma_subtracts,
    lemma_sum_near, lemma_sum_over, lemma_swapped_difference, lemma_times_one, lemma_times_zero,
    lemma_zero_over, lemma_zero_value, near_ratio,
};
use crate::num::series::sum_of_seq;
use crate::num::Real;
use crate::risk::limits::{
    kill_action, severity, EwmaVolEstimator, KillAction, KillReason, RiskLimits,
};
use crate::risk::manager::{
    close_reason, first_correlated, lemma_place_of, pair_correlation, verdict, weight_with,
    with_position, PortfolioState, Position, Rejection,
};
use crate::signals::generator::{Direction, TradeSignal};
use crate::text::spec_text_less;

verus! {

/// The signal's asset is not held.
pub open spec fn is_not_held(portfolio: PortfolioState, asset: Seq<char>) -> bool {
    forall|i: int|
        0 <= i < portfolio.positions@.len() ==> #[trigger] portfolio.positions@[i].asset@ != asset
}

/// The position that a signal opens.
pub open spec fn opens(pos: Position, signal: TradeSignal) -> bool {
    &&& pos.asset@ == signal.asset@
    &&& pos.size_usd == signal.position_size_usd
    &&& pos.leverage == signal.leverage
    &&& pos.direction == signal.direction
}

/// The portfolio `after` is `before` with one more position.
pub open spec fn is_opened(before: PortfolioState, pos: Position, after: PortfolioState) -> bool {
    &&& after.positions@ == with_position(before.positions@, pos)
    &&& after.nav == before.nav
    &&& after.peak_nav == before.peak_nav
}

/// Opening a position in an asset that is not held adds its size times its leverage to
/// the gross exposure, and to the net exposure with the sign of its direction. Without
/// positions both are zero.
pub proof fn opening_adds_its_notional(before: PortfolioState, pos: Position, after: PortfolioState)
    requires
        is_not_held(before, pos.asset@),
        is_opened(before, pos, after),
        !(pos.size_usd * pos.leverage).nan(),
    ensures
        after.positions@.len() == before.positions@.len() + 1,
        after.gross() == before.gross() + pos.size_usd * pos.leverage,
        after.net() == before.net() + (if pos.direction == Direction::Long {
            pos.size_usd * pos.leverage
        } else {
            (pos.size_usd * pos.leverage).neg()
        }),
        before.positions@.len() == 0 ==> before.gross().value() == 0 && before.net().value() == 0,
{
    lemma_place_of(before.positions@, pos.asset@, before.positions@.len() as int);
    let (b, a) = (before.positions@, after.positions@);
    assert(a =~= b.push(pos));
    let (gb, ga) = (
        b.map_values(|p: Position| p.spec_gross()),
        a.map_values(|p: Position| p.spec_gross()),
    );
    assert(ga.drop_last() =~= gb);
    let (nb, na) = (
        b.map_values(|p: Position| p.spec_net()),
        a.map_values(|p: Position| p.spec_net()),
    );
    assert(na.drop_last() =~= nb);
    let x = pos.size_usd * pos.leverage;
    lemma_times_one(x);
    lemma_whole(1);
    lemma_negated_factor(x, Real::whole(1));
    lemma_units_zero(0);
}

/// Gross exposure is the sum of the positions' notionals, and net exposure that of the
/// long ones less that of the short ones, up to rounding.
pub proof fn exposures_are_sums_of_notionals(portfolio: PortfolioState)
    requires
        sum_of_seq(
            sizes(portfolio.positions@.map_values(|p: Position| p.size_usd * p.leverage)),
        ).finite(),
    ensures
        ({
            let all = portfolio.positions@.map_values(|p: Position| p.size_usd * p.leverage);
            let signed = portfolio.positions@.map_values(
                |p: Position|
                    if p.direction == Direction::Long {
                        p.size_usd * p.leverage
                    } else {
                        (p.size_usd * p.leverage).neg()
                    },
            );
            let (n, g) = (portfolio.positions@.len(), sum_of_seq(sizes(all)).value());
            &&& size(portfolio.gross().value() - exact_sum(all)) * PARTS <= n * (4 * g)
            &&& size(portfolio.net().value() - exact_sum(signed)) * PARTS <= n * (4 * g)
            &&& size(portfolio.net().value()) <= g
        }),
{
    let ps = portfolio.positions@;
    let all = ps.map_values(|p: Position| p.size_usd * p.leverage);
    let signed = ps.map_values(
        |p: Position|
            if p.direction == Direction::Long {
                p.size_usd * p.leverage
            } else {
                (p.size_usd * p.leverage).neg()
            },
    );
    assert(ps.map_values(|p: Position| p.spec_gross()) =~= all);
    lemma_sum_near(all);
    crate::num::drift::lemma_sum_size(all);
    lemma_whole(1);
    let net = ps.map_values(|p: Position| p.spec_net());
    assert forall|i: int| 0 <= i < ps.len() implies net[i] == signed[i] && sizes(signed)[i] == sizes(
        all,
    )[i] by {
        let x = all[i];
        assert(x.finite());
        lemma_times_one(x);
        lemma_negated_factor(x, Real::whole(1));
        lemma_zero_value(x);
    }
    assert(net =~= signed);
    assert(sizes(signed) =~= sizes(all));
    lemma_sum_near(signed);
}

/// Once an accepted signal's position is open, the portfolio keeps the limits: its gross
/// exposure over its net asset value, the weight of the new position, and the number of
/// positions.
pub proof fn opened_position_keeps_limits(
    limits: RiskLimits,
    signal: TradeSignal,
    before: PortfolioState,
    corr_matrix: Option<&Table<Real>>,
    pos: Position,
    after: PortfolioState,
)
    requires
        verdict(limits, signal, before, corr_matrix) is Ok,
        is_not_held(before, signal.asset@),
        opens(pos, signal),
        is_opened(before, pos, after),
        !(pos.size_usd * pos.leverage).nan(),
        !pos.size_usd.nan(),
        pos.size_usd.value() != 0,
    ensures
        !(after.gross() / after.nav.max(Real::whole(1)) > limits.max_gross_exposure),
        !(pos.size_usd / after.nav.max(Real::whole(1)) > limits.max_single_asset_weight),
        after.positions@.len() <= limits.max_concurrent_positions,
        Real::whole(1) <= after.nav ==> !(after.gross() / after.nav > limits.max_gross_exposure),
{
    opening_adds_its_notional(before, pos, after);
    lemma_place_of(before.positions@, signal.asset@, before.positions@.len() as int);
    lemma_whole(0);
    lemma_whole(1);
    assert(0 * pow2(1074) == 0);
    lemma_zero_value(Real::whole(0));
    lemma_plus_zero(pos.size_usd, Real::whole(0));
}

/// A signal is rejected for leverage exactly when the drawdown is within its limit and
/// the portfolio with the signal's position would exceed the limit.
pub proof fn leverage_rejection_is_for_cause(
    limits: RiskLimits,
    signal: TradeSignal,
    before: PortfolioState,
    corr_matrix: Option<&Table<Real>>,
    pos: Position,
    after: PortfolioState,
)
    requires
        is_not_held(before, signal.asset@),
        opens(pos, signal),
        is_opened(before, pos, after),
        !(pos.size_usd * pos.leverage).nan(),
    ensures
        ({
            let v = verdict(limits, signal, before, corr_matrix);
            let x = after.gross() / after.nav.max(Real::whole(1));
            (v matches Err(Rejection::Leverage { new_leverage, limit }) && new_leverage == x && limit
                == limits.max_gross_exposure) <==> !(before.drawdown() > limits.max_daily_drawdown)
                && x > limits.max_gross_exposure
        }),
{
    opening_adds_its_notional(before, pos, after);
}

/// The drawdown is zero at the peak, one where nothing is left, and never smaller for a
/// smaller net asset value; it is the loss as a share of the peak, up to rounding.
pub proof fn drawdown_is_the_loss_from_the_peak(portfolio: PortfolioState, poorer: PortfolioState)
    requires
        Real::ratio(1, 10_000_000_000) <= portfolio.peak_nav,
        portfolio.peak_nav.finite(),
        Real::whole(0) <= poorer.nav,
        poorer.nav <= portfolio.nav,
        portfolio.nav <= portfolio.peak_nav,
        poorer.peak_nav == portfolio.peak_nav,
    ensures
        Real::whole(0) <= portfolio.drawdown(),
        portfolio.drawdown() <= poorer.drawdown(),
        poorer.drawdown() <= Real::whole(1),
        portfolio.nav == portfolio.peak_nav ==> portfolio.drawdown().value() == 0,
        poorer.nav.zero() ==> poorer.drawdown() == Real::whole(1),
        ({
            let (d, p, n, w) = (
                portfolio.drawdown().value(),
                portfolio.peak_nav.value(),
                portfolio.nav.value(),
                pow2(1074) as int,
            );
            size(d * p - (p - n) * w) * PARTS <= 4 * (p * w)
        }),
{
    let (peak, one) = (portfolio.peak_nav, Real::whole(1));
    lemma_whole(0);
    lemma_whole(1);
    let w = pow2(1074) as int;
    lemma_pow2_pos(1074);
    lemma2_to64();
    lemma2_to64_rest();
    lemma_pow2_strictly_increases(53, 1074);
    assert(0 * w == 0 && 1 * w == w);
    lemma_positive_ratio();
    lemma_between(Real::whole(0), portfolio.nav, peak);
    lemma_between(Real::whole(0), poorer.nav, peak);
    let (a, b) = (peak - portfolio.nav, peak - poorer.nav);
    lemma_subtracts(peak, portfolio.nav);
    lemma_subtracts(peak, poorer.nav);
    lemma_difference_sign(peak, portfolio.nav);
    lemma_difference_sign(peak, poorer.nav);
    lemma_neg_order(poorer.nav, portfolio.nav);
    lemma_zero_value(poorer.nav);
    lemma_zero_value(portfolio.nav);
    lemma_add_monotone_left(peak, portfolio.nav.neg(), poorer.nav.neg());
    lemma_div_monotone(a, b, peak);
    lemma_at_most_one(b, peak);
    if portfolio.nav == peak {
        lemma_zero_value(a);
        lemma_zero_over(a, peak);
    }
    if poorer.nav.zero() {
        lemma_plus_zero(peak, poorer.nav.neg());
        lemma_over_itself(peak);
    }
    lemma_at_most_one(a, peak);
    lemma_quotient_near(a, peak);
    let (d, p, n, av) = ((a / peak).value(), peak.value(), portfolio.nav.value(), a.value());
    let (e1, e2) = (d * p - av * w, av - (p - n));
    let q = d * p - (p - n) * w;
    assert(q == e1 + e2 * w) by (nonlinear_arith)
        requires
            q == d * p - (p - n) * w,
            e1 == d * p - av * w,
            e2 == av - (p - n),
    ;
    assert(av * w <= p * w) by (nonlinear_arith)
        requires
            av <= p,
            w > 0,
    ;
    assert(p * BINADE <= p * w) by (nonlinear_arith)
        requires
            p >= 0,
            BINADE <= w,
    ;
    let x = e2 * w;
    assert(size(x) * PARTS <= 2 * (p * w)) by (nonlinear_arith)
        requires
            x == e2 * w,
            size(e2) * PARTS <= p + n,
            n <= p,
            w > 0,
    ;
    assert(size(q) * PARTS <= size(e1) * PARTS + size(x) * PARTS) by (nonlinear_arith)
        requires
            size(q) <= size(e1) + size(x),
    ;
}

proof fn lemma_add_monotone_left(c: Real, a: Real, b: Real)
    requires
        a <= b,
        c.finite(),
        a.finite(),
        b.finite(),
    ensures
        c + a <= c + b,
{
    crate::num::order::lemma_add_commutes(c, a);
    crate::num::order::lemma_add_commutes(c, b);
    crate::num::drift::lemma_add_mag(c, a);
    crate::num::drift::lemma_add_mag(c, b);
    lemma_add_monotone(a, b, c);
}

proof fn lemma_positive_ratio()
    ensures
        Real::whole(0) < Real::ratio(1, 10_000_000_000),
{
    let (one, d) = (Real::whole(1), Real::whole(10_000_000_000));
    lemma_whole(0);
    lemma_whole(1);
    lemma_whole(10_000_000_000);
    let w = pow2(1074) as int;
    lemma_pow2_pos(1074);
    lemma2_to64();
    lemma2_to64_rest();
    lemma_pow2_strictly_increases(60, 1074);
    assert(0 * w == 0 && 1 * w == w);
    lemma_whole_order(1, 10_000_000_000);
    lemma_at_most_one(one, d);
    lemma_quotient_near(one, d);
    let q = (one / d).value();
    assert(q != 0) by (nonlinear_arith)
        requires
            size(q * (10_000_000_000 * w) - w * w) * PARTS <= w * w + (10_000_000_000 * w) * BINADE,
            w >= 0x1000_0000_0000_0000,
            PARTS == 0x20_0000_0000_0000,
            BINADE == 0x10_0000_0000_0000,
    ;
    lemma_div_monotone(one, one, d);
}

/// A position earns where the price has moved its way and loses where it has moved
/// against it; at the entry price it does neither, and a short position earns what a
/// long one loses.
pub proof fn position_earns_on_its_side(long: Position, short: Position, price: Real)
    requires
        long.direction == Direction::Long,
        short.direction == Direction::Short,
        short.entry_price == long.entry_price,
        short.size_usd == long.size_usd,
        Real::ratio(1, 10_000_000_000) <= long.entry_price,
        long.entry_price.finite(),
        price.finite(),
        Real::whole(0) <= long.size_usd,
        long.size_usd.finite(),
        ((price - long.entry_price) / long.entry_price).finite(),
        long.pnl_at(price).finite(),
        short.pnl_at(price).finite(),
    ensures
        price >= long.entry_price ==> long.pnl_at(price).value() >= 0,
        price <= long.entry_price ==> long.pnl_at(price).value() <= 0,
        price == long.entry_price ==> long.pnl_at(price).value() == 0,
        short.pnl_at(price).value() == -long.pnl_at(price).value(),
{
    let e = long.entry_price;
    lemma_whole(0);
    assert(0 * pow2(1074) == 0);
    lemma_positive_ratio();
    lemma_difference_sign(price, e);
    lemma_difference_sign(e, price);
    lemma_swapped_difference(price, e);
    let (d, b) = (price - e, e - price);
    assert(d.finite()) by {
        reveal(Real::spec_div);
    }
    lemma_zero_value(d);
    let q = d / e;
    lemma_quotient_near(d, e);
    lemma_product_near(long.size_usd, q);
    let (dv, ev, qv, sv) = (d.value(), e.value(), q.value(), long.size_usd.value());
    assert(dv >= 0 ==> dv * ev >= 0) by (nonlinear_arith)
        requires
            ev >= 0,
    ;
    assert(dv <= 0 ==> dv * ev <= 0) by (nonlinear_arith)
        requires
            ev >= 0,
    ;
    assert(qv >= 0 ==> sv * qv >= 0) by (nonlinear_arith)
        requires
            sv >= 0,
    ;
    assert(qv <= 0 ==> sv * qv <= 0) by (nonlinear_arith)
        requires
            sv >= 0,
    ;
    if price.value() != e.value() {
        crate::num::rules::lemma_negated_term(d, e);
        lemma_negated_factor(long.size_usd, q);
        lemma_zero_value(long.size_usd * q);
    } else {
        lemma_zero_value(b);
        lemma_zero_over(d, e);
        lemma_zero_over(b, e);
        lemma_times_zero(long.size_usd, q);
        lemma_times_zero(long.size_usd, b / e);
    }
}

/// A position that is not losing is never closed for a move of the price, and one that
/// is held for too long always is closed.
pub proof fn winning_position_is_not_stopped(
    pos: Position,
    now_ms: u64,
    price: Real,
    max_hold_ms: u64,
)
    ensures
        now_ms - pos.open_time_ms > max_hold_ms ==> close_reason(pos, now_ms, price, max_hold_ms)
            == Some("time_stop"@),
        now_ms - pos.open_time_ms <= max_hold_ms && !(pos.pnl_at(price) < Real::whole(0))
            ==> close_reason(pos, now_ms, price, max_hold_ms) is None,
{
}

/// A price that is within five percent of the entry does not stop a position, and one
/// that is further away does where the position loses.
pub proof fn five_percent_against_stops(
    pos: Position,
    now_ms: u64,
    price: Real,
    max_hold_ms: u64,
)
    requires
        now_ms - pos.open_time_ms <= max_hold_ms,
        Real::ratio(1, 10_000_000_000) <= pos.entry_price,
        pos.pnl_at(price) < Real::whole(0),
    ensures
        close_reason(pos, now_ms, price, max_hold_ms) is Some <==> (price - pos.entry_price).abs()
            / pos.entry_price > Real::ratio(5, 100),
        close_reason(pos, now_ms, price, max_hold_ms) matches Some(r) ==> r == "vol_stop"@,
{
    lemma_whole_below_ratio(0, 1, 10_000_000_000);
}

/// A kill switch names a true cause, and reduces to one half.
pub proof fn kill_switch_names_its_cause(
    limits: RiskLimits,
    drawdown: Real,
    gross_leverage: Real,
    realized_vol: Real,
    min_log_predictive: Real,
)
    ensures
        match kill_action(limits, drawdown, gross_leverage, realized_vol, min_log_predictive) {
            None => !(drawdown > limits.max_daily_drawdown) && !(gross_leverage
                > limits.max_gross_exposure),
            Some(KillAction::CloseAll { reason }) => match reason {
                KillReason::PortfolioDrawdown { .. } => drawdown > limits.max_portfolio_drawdown,
                KillReason::LeverageFarExceeded { gross_leverage: g, limit } => g == gross_leverage
                    && limit == limits.hard_leverage_limit && g > limit,
                _ => false,
            },
            Some(KillAction::ReduceAll { fraction, reason }) => fraction == Real::ratio(1, 2)
                && match reason {
                KillReason::RealizedVol { realized_vol: v, multiplier, target } => v
                    == realized_vol && v > target * multiplier && target == limits.target_daily_vol
                    && multiplier == limits.vol_kill_multiplier,
                KillReason::EstimatorInstability { log_predictive, threshold } => log_predictive
                    == min_log_predictive && threshold == limits.min_log_predictive
                    && log_predictive < threshold,
                _ => false,
            },
            Some(KillAction::HaltNewTrades { reason }) => match reason {
                KillReason::DailyDrawdown { .. } => drawdown > limits.max_daily_drawdown,
                KillReason::LeverageExceeded { gross_leverage: g, limit } => g == gross_leverage
                    && limit == limits.max_gross_exposure && g > limit,
                _ => false,
            },
        },
{
}

/// With all else equal, more leverage, more volatility or a less likely observation
/// never leads to a milder action.
pub proof fn worse_figures_are_never_milder(
    limits: RiskLimits,
    drawdown: Real,
    leverage: (Real, Real),
    vol: (Real, Real),
    likelihood: (Real, Real),
)
    requires
        leverage.0 <= leverage.1,
        vol.0 <= vol.1,
        likelihood.1 <= likelihood.0,
    ensures
        severity(kill_action(limits, drawdown, leverage.0, vol.0, likelihood.0)) <= severity(
            kill_action(limits, drawdown, leverage.1, vol.1, likelihood.1),
        ),
{
}

/// The ratio of a signal times the distance of its stop is the distance of its target,
/// up to rounding.
pub proof fn risk_reward_compares_the_distances(signal: TradeSignal)
    requires
        signal.entry_price.finite(),
        signal.stop_loss.finite(),
        signal.take_profit.finite(),
        (signal.take_profit - signal.entry_price).finite(),
        (signal.stop_loss - signal.entry_price).finite(),
        Real::ratio(1, 10_000_000_000) <= (signal.stop_loss - signal.entry_price).abs(),
        signal.risk_reward().finite(),
    ensures
        ({
            let (r, g, l, w) = (
                signal.risk_reward().value(),
                size((signal.take_profit - signal.entry_price).value()),
                size((signal.stop_loss - signal.entry_price).value()),
                pow2(1074) as int,
            );
            r >= 0 && size(r * l - g * w) * PARTS <= g * w + l * BINADE
        }),
{
    lemma_whole(0);
    assert(0 * pow2(1074) == 0);
    lemma_positive_ratio();
    let (g, l) = (signal.take_profit - signal.entry_price, signal.stop_loss - signal.entry_price);
    lemma_zero_value(g);
    lemma_zero_value(l);
    lemma_quotient_near(g.abs(), l.abs());
    assert(g.abs().value() * l.abs().value() >= 0) by (nonlinear_arith)
        requires
            g.abs().value() >= 0,
            l.abs().value() >= 0,
    ;
}

/// The leverage of a portfolio times its net asset value is its gross exposure, up to
/// rounding.
pub proof fn leverage_is_a_share_of_the_value(portfolio: PortfolioState)
    requires
        Real::ratio(1, 10_000_000_000) <= portfolio.nav,
        portfolio.nav.finite(),
        portfolio.gross().finite(),
        portfolio.leverage().finite(),
    ensures
        is_quotient(portfolio.leverage(), portfolio.gross(), portfolio.nav),
{
    lemma_small_ratio(10_000_000_000);
    lemma_order_key(Real::ratio(1, 10_000_000_000), portfolio.nav);
    lemma_operations_are_close(portfolio.gross(), portfolio.nav);
}

/// The stop distance of a signal times its entry price is the distance of its stop from
/// the entry, up to rounding.
pub proof fn stop_share_measures_the_stop(signal: TradeSignal)
    requires
        Real::ratio(1, 10_000_000_000) <= signal.entry_price,
        signal.entry_price.finite(),
        (signal.stop_loss - signal.entry_price).finite(),
        signal.stop_share().finite(),
    ensures
        exists|d: Real| #[trigger]
            is_sum(d, signal.stop_loss, signal.entry_price.neg())
                && is_quotient(signal.stop_share(), d.abs(), signal.entry_price),
{
    let d = signal.stop_loss - signal.entry_price;
    lemma_small_ratio(10_000_000_000);
    lemma_order_key(Real::ratio(1, 10_000_000_000), signal.entry_price);
    lemma_operations_are_close(signal.stop_loss, signal.entry_price);
    lemma_operations_are_close(d.abs(), signal.entry_price);
    assert(is_sum(d, signal.stop_loss, signal.entry_price.neg()));
}

/// The first return sets the variance to its square. After that the variance keeps its
/// share of the past and takes the rest from the square of the return, up to rounding.
pub proof fn variance_remembers_its_share(e: EwmaVolEstimator, ret: Real)
    requires
        e.updated(ret).ema_var.finite(),
    ensures
        !e.initialized ==> is_product(e.updated(ret).ema_var, ret, ret),
        e.initialized ==> exists|kept: Real, rest: Real, at_share: Real, shock: Real|
            #![trigger is_product(
                kept,
                e.decay,
                e.ema_var,
            ), is_product(at_share, rest, ret), is_product(
                shock,
                at_share,
                ret,
            )]
            is_product(kept, e.decay, e.ema_var) && is_sum(
                rest,
                Real::whole(1),
                e.decay.neg(),
            ) && is_product(at_share, rest, ret) && is_product(
                shock,
                at_share,
                ret,
            ) && is_sum(e.updated(ret).ema_var, kept, shock),
        e.updated(ret).decay == e.decay,
        e.updated(ret).initialized,
{
    if e.initialized {
        let (kept, rest) = (e.decay * e.ema_var, Real::whole(1) - e.decay);
        let at_share = rest * ret;
        let shock = at_share * ret;
        lemma_finite_terms(kept, shock);
        lemma_finite_factors(at_share, ret);
        lemma_finite_factors(rest, ret);
        lemma_operations_are_close(e.decay, e.ema_var);
        lemma_operations_are_close(Real::whole(1), e.decay);
        lemma_operations_are_close(rest, ret);
        lemma_operations_are_close(at_share, ret);
        lemma_operations_are_close(kept, shock);
        assert(is_product(kept, e.decay, e.ema_var)
            && is_product(at_share, rest, ret) && is_product(
            shock,
            at_share,
            ret,
        ));
    } else {
        lemma_operations_are_close(ret, ret);
    }
}

/// The weight of an asset with a signal times the net asset value is the size of the signal
/// and of what is held, up to rounding.
pub proof fn weight_counts_what_is_held(signal: TradeSignal, portfolio: PortfolioState, held: Real)
    requires
        Real::whole(1) <= portfolio.nav,
        portfolio.nav.finite(),
        portfolio.position_in(signal.asset@) is None ==> held == Real::whole(0),
        portfolio.position_in(signal.asset@) matches Some(p) ==> held == p.size_usd,
        (signal.position_size_usd + held).finite(),
        weight_with(signal, portfolio).finite(),
    ensures
        near_ratio(
            weight_with(signal, portfolio),
            signal.position_size_usd.value() + held.value(),
            portfolio.nav.value(),
            3,
        ),
{
    let one = Real::whole(1);
    lemma_whole(1);
    lemma_pow2_pos(1074);
    assert(1 * pow2(1074) == pow2(1074));
    lemma_order_key(one, portfolio.nav);
    if portfolio.nav.max(one) != portfolio.nav {
        crate::num::rules::lemma_same_value(portfolio.nav, one);
    }
    lemma_sum_over(signal.position_size_usd, held, portfolio.nav);
}

/// A signal is rejected only for a cause that holds of it, and the rejection shows it.
pub proof fn every_rejection_is_for_cause(
    limits: RiskLimits,
    signal: TradeSignal,
    portfolio: PortfolioState,
    corr_matrix: Option<&Table<Real>>,
)
    ensures
        match verdict(limits, signal, portfolio, corr_matrix) {
            Ok(_) => true,
            Err(Rejection::Drawdown { percent, limit_percent }) => limits.max_daily_drawdown
                < portfolio.drawdown() && (percent.finite() ==> is_product(
                percent,
                portfolio.drawdown(),
                Real::whole(100),
            )),
            Err(Rejection::Leverage { new_leverage, limit }) => limit < new_leverage && limit
                == limits.max_gross_exposure,
            Err(Rejection::AssetWeight { asset, limit_percent }) => asset@ == signal.asset@
                && limits.max_single_asset_weight < weight_with(signal, portfolio),
            Err(Rejection::Correlation { asset, percent, other, limit_percent }) => asset@
                == signal.asset@ && exists|i: int|
                0 <= i < portfolio.positions@.len() && (#[trigger] portfolio.positions@[i]).asset@
                    == other@ && limits.max_pairwise_correlation < pair_correlation(
                    signal.asset@,
                    other@,
                    corr_matrix,
                ),
            Err(Rejection::RiskReward { risk_reward, minimum }) => risk_reward < minimum
                && risk_reward == signal.risk_reward() && minimum == limits.min_risk_reward,
            Err(Rejection::ConcurrentPositions { maximum }) => portfolio.positions@.len() >= maximum
                && maximum == limits.max_concurrent_positions,
            Err(Rejection::Confidence { confidence, minimum }) => confidence < minimum && confidence
                == signal.signal_confidence && minimum == limits.min_signal_confidence,
        },
{
    lemma_operations_are_close(portfolio.drawdown(), Real::whole(100));
    let c = first_correlated(
        portfolio.positions@,
        0,
        signal.asset@,
        corr_matrix,
        limits.max_pairwise_correlation,
    );
    lemma_correlated(
        portfolio.positions@,
        0,
        signal.asset@,
        corr_matrix,
        limits.max_pairwise_correlation,
    );
    if c < portfolio.positions@.len() {
        assert(portfolio.positions@[c as int].asset@ == portfolio.positions@[c as int].asset@);
    }
}

proof fn lemma_correlated(
    positions: Seq<Position>,
    from: nat,
    asset: Seq<char>,
    corr_matrix: Option<&Table<Real>>,
    limit: Real,
)
    ensures
        ({
            let c = first_correlated(positions, from, asset, corr_matrix, limit);
            c < positions.len() ==> limit < pair_correlation(
                asset,
                positions[c as int].asset@,
                corr_matrix,
            )
        }),
    decreases positions.len() - from,
{
    if from < positions.len() && !(pair_correlation(
        asset,
        positions[from as int].asset@,
        corr_matrix,
    ) > limit) {
        lemma_correlated(positions, from + 1, asset, corr_matrix, limit);
    }
}

/// Different characters have different code points.
proof fn lemma_code_points(x: char, y: char)
    requires
        x != y,
    ensures
        x as u32 != y as u32,
{
}

/// Of two different texts one comes before the other.
proof fn lemma_text_order(a: Seq<char>, b: Seq<char>)
    requires
        a != b,
    ensures
        spec_text_less(a, b) != spec_text_less(b, a),
    decreases a.len(),
{
    if a.len() == 0 {
        assert(b.len() > 0) by {
            if b.len() == 0 {
                assert(a =~= b);
            }
        }
    } else if b.len() > 0 {
        if a[0] == b[0] {
            if a.drop_first() == b.drop_first() {
                assert(a =~= seq![a[0]] + a.drop_first());
                assert(b =~= seq![b[0]] + b.drop_first());
                assert(a == b);
            } else {
                lemma_text_order(a.drop_first(), b.drop_first());
                assert(spec_text_less(a, b) == spec_text_less(a.drop_first(), b.drop_first()));
                assert(spec_text_less(b, a) == spec_text_less(b.drop_first(), a.drop_first()));
            }
        } else {
            lemma_code_points(a[0], b[0]);
        }
    }
}

/// The order of a pair does not matter to its correlation.
pub proof fn correlation_is_of_the_pair(
    a: Seq<char>,
    b: Seq<char>,
    corr_matrix: Option<&Table<Real>>,
)
    ensures
        pair_correlation(a, b, corr_matrix) == pair_correlation(b, a, corr_matrix),
{
    if a != b {
        lemma_text_order(a, b);
    }
}

} // verus!
