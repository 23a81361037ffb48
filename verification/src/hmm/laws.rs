//! What the probabilities of the regimes mean.
use vstd::arithmetic::power2::pow2;
use vstd::prelude::*;

use crate::hmm::model::{
    alpha_at, emission_of, first_row, forward_raw, inflow, log_density_of, log_likelihood, next_row,
    normalised, scale_of, HmmParams, N_STATES,
};
use crate::hmm::training::{
    backward_raw, beta_at, gamma_at, improved, new_mean, outflow, presences, step_weight, xi_at,
};
use crate::num::constants::{pi, tiny300};
use crate::num::elementary::{ln_of, Oracle};
use crate::num::magnitude::lemma_units_zero;
use crate::num::ops::lemma_order_key;
use crate::num::order::{lemma_add_monotone, lemma_div_monotone, lemma_whole};
use crate::num::rules::{
    is_quotient, is_sum, lemma_difference_sign, lemma_halved_order, lemma_not_nan_product,
    lemma_not_nan_sum, lemma_operations_are_close, lemma_plus_zero, lemma_sum_of_orders,
    lemma_times_zero, lemma_zero_over, lemma_zero_value,
};
use crate::num::series::{products, sum_of_seq};
use crate::num::Real;

verus! {

proof fn lemma_tiny()
    ensures
        tiny300().finite(),
        tiny300().value() > 0,
        Real::whole(0) < tiny300(),
{
    lemma_whole(0);
    assert(0 * pow2(1074) == 0);
    lemma_units_zero(tiny300().mag());
    lemma_zero_value(tiny300());
}

/// A row with a sum that is large enough is divided by it: each part is its share, up to
/// rounding.
pub proof fn parts_are_shares_of_the_sum(raw: Seq<Real>, i: int)
    requires
        0 <= i < raw.len(),
        tiny300() <= sum_of_seq(raw),
        sum_of_seq(raw).finite(),
        raw[i].finite(),
        normalised(raw)[i].finite(),
    ensures
        is_quotient(normalised(raw)[i], raw[i], sum_of_seq(raw)),
{
    lemma_tiny();
    lemma_order_key(tiny300(), sum_of_seq(raw));
    lemma_operations_are_close(raw[i], sum_of_seq(raw));
}

/// Parts keep their order when a row is divided by its sum, and none becomes negative.
pub proof fn parts_keep_their_order(raw: Seq<Real>, i: int, j: int)
    requires
        0 <= i < raw.len(),
        0 <= j < raw.len(),
        Real::whole(0) <= raw[i],
        raw[i] <= raw[j],
        raw[j].finite(),
    ensures
        Real::whole(0) <= normalised(raw)[i],
        normalised(raw)[i] <= normalised(raw)[j],
{
    lemma_tiny();
    let s = scale_of(raw);
    lemma_order_key(tiny300(), s);
    lemma_order_key(Real::whole(0), s);
    lemma_div_monotone(raw[i], raw[j], s);
}

proof fn lemma_zero_total(t: Seq<Real>)
    requires
        forall|i: int| 0 <= i < t.len() ==> (#[trigger] t[i]).zero(),
    ensures
        sum_of_seq(t).zero(),
    decreases t.len(),
{
    lemma_units_zero(0);
    if t.len() > 0 {
        let b = t.drop_last();
        assert forall|i: int| 0 <= i < b.len() implies (#[trigger] b[i]).zero() by {
            assert(t[i].zero());
        }
        lemma_zero_total(b);
        let (x, y) = (sum_of_seq(b), t.last());
        assert(t[t.len() - 1].zero());
        lemma_plus_zero(x, y);
        lemma_zero_value(x);
        lemma_zero_value(x + y);
    }
}

proof fn lemma_zero_part(raw: Seq<Real>, i: int)
    requires
        0 <= i < raw.len(),
        raw[i].zero(),
    ensures
        normalised(raw)[i].zero(),
{
    lemma_tiny();
    let s = scale_of(raw);
    lemma_order_key(tiny300(), s);
    lemma_zero_value(s);
    lemma_zero_over(raw[i], s);
}

/// A state that cannot come first has no probability at first.
pub proof fn impossible_start_has_no_probability(
    f: Oracle,
    p: HmmParams,
    obs: Seq<Seq<Real>>,
    j: int,
)
    requires
        0 <= j < N_STATES,
        p.pi[j].zero(),
        emission_of(f, p, j, obs[0]).finite(),
    ensures
        alpha_at(f, p, obs, 0)[j].zero(),
{
    lemma_times_zero(emission_of(f, p, j, obs[0]), p.pi[j]);
    let raw = first_row(f, p, obs[0]);
    assert(raw[j] == p.pi[j] * emission_of(f, p, j, obs[0]));
    assert(forward_raw(f, p, obs, 0) == raw);
    lemma_zero_part(raw, j);
}

/// A state that no state leads to has no probability after the first time.
pub proof fn unreachable_state_has_no_probability(
    f: Oracle,
    p: HmmParams,
    obs: Seq<Seq<Real>>,
    t: nat,
    j: int,
)
    requires
        0 < t,
        0 <= j < N_STATES,
        forall|i: int| 0 <= i < N_STATES ==> (#[trigger] p.transition[i])[j].zero(),
        forall|i: int|
            0 <= i < N_STATES ==> (#[trigger] alpha_at(f, p, obs, (t - 1) as nat)[i]).finite(),
        emission_of(f, p, j, obs[t as int]).finite(),
    ensures
        alpha_at(f, p, obs, t)[j].zero(),
{
    let before = alpha_at(f, p, obs, (t - 1) as nat);
    let terms = inflow(p, before, j);
    assert forall|i: int| 0 <= i < terms.len() implies (#[trigger] terms[i]).zero() by {
        assert(p.transition[i][j].zero());
        assert(before[i].finite());
        lemma_times_zero(before[i], p.transition[i][j]);
    }
    lemma_zero_total(terms);
    lemma_times_zero(emission_of(f, p, j, obs[t as int]), sum_of_seq(terms));
    let raw = next_row(f, p, before, obs[t as int]);
    assert(raw[j] == sum_of_seq(terms) * emission_of(f, p, j, obs[t as int]));
    assert(forward_raw(f, p, obs, t) == raw);
    lemma_zero_part(raw, j);
}

/// A state that leads nowhere explains nothing of what follows.
pub proof fn dead_end_explains_nothing(
    f: Oracle,
    p: HmmParams,
    obs: Seq<Seq<Real>>,
    t: int,
    i: int,
)
    requires
        0 <= t < obs.len() - 1,
        0 <= i < N_STATES,
        forall|j: int| 0 <= j < N_STATES ==> (#[trigger] p.transition[i][j]).zero(),
        forall|j: int| 0 <= j < N_STATES ==> (#[trigger] emission_of(f, p, j, obs[t + 1])).finite(),
        forall|j: int| 0 <= j < N_STATES ==> (#[trigger] beta_at(f, p, obs, t + 1)[j]).finite(),
    ensures
        beta_at(f, p, obs, t)[i].zero(),
{
    let after = beta_at(f, p, obs, t + 1);
    let terms = outflow(f, p, i, obs[t + 1], after);
    assert forall|j: int| 0 <= j < terms.len() implies (#[trigger] terms[j]).zero() by {
        assert(p.transition[i][j].zero());
        let e = emission_of(f, p, j, obs[t + 1]);
        assert(e.finite());
        assert(after[j].finite());
        lemma_times_zero(e, p.transition[i][j]);
        lemma_times_zero(after[j], p.transition[i][j] * e);
    }
    lemma_zero_total(terms);
    let raw = backward_raw(f, p, obs[t + 1], after);
    assert(raw[i] == sum_of_seq(terms));
    lemma_zero_part(raw, i);
}

/// Nothing follows the last observation, so all states explain it alike.
pub proof fn nothing_follows_the_last(f: Oracle, p: HmmParams, obs: Seq<Seq<Real>>, i: int)
    requires
        obs.len() > 0,
        0 <= i < N_STATES,
    ensures
        beta_at(f, p, obs, obs.len() - 1)[i] == Real::whole(1),
{
}

/// A state that the past rules out, or that explains nothing of the future, has no
/// probability given all observations; nor has a step between two states that cannot be.
pub proof fn impossible_state_is_never_present(
    f: Oracle,
    p: HmmParams,
    obs: Seq<Seq<Real>>,
    t: int,
    i: int,
)
    requires
        0 <= t < obs.len(),
        0 <= i < N_STATES,
        alpha_at(f, p, obs, t as nat).len() == N_STATES,
        beta_at(f, p, obs, t).len() == N_STATES,
        alpha_at(f, p, obs, t as nat)[i].finite(),
        beta_at(f, p, obs, t)[i].finite(),
        alpha_at(f, p, obs, t as nat)[i].zero() || beta_at(f, p, obs, t)[i].zero(),
    ensures
        gamma_at(f, p, obs, t)[i].zero(),
{
    let (a, b) = (alpha_at(f, p, obs, t as nat), beta_at(f, p, obs, t));
    if a[i].zero() {
        lemma_times_zero(b[i], a[i]);
    } else {
        lemma_times_zero(a[i], b[i]);
    }
    assert(products(a, b)[i] == a[i] * b[i]);
    lemma_zero_part(products(a, b), i);
}

/// A step that cannot be taken is never taken.
pub proof fn impossible_step_is_never_taken(
    f: Oracle,
    p: HmmParams,
    obs: Seq<Seq<Real>>,
    t: int,
    i: int,
    j: int,
)
    requires
        p.transition[i][j].zero(),
        alpha_at(f, p, obs, t as nat)[i].finite(),
        emission_of(f, p, j, obs[t + 1]).finite(),
        beta_at(f, p, obs, t + 1)[j].finite(),
    ensures
        xi_at(f, p, obs, t, i, j).zero(),
{
    let a = alpha_at(f, p, obs, t as nat)[i];
    let e = emission_of(f, p, j, obs[t + 1]);
    let b = beta_at(f, p, obs, t + 1)[j];
    let x = p.transition[i][j];
    lemma_times_zero(a, x);
    lemma_times_zero(e, a * x);
    lemma_times_zero(b, a * x * e);
    let w = step_weight(f, p, obs, t, i, j);
    assert(w == a * x * e * b);
    let d = crate::num::series::tally(crate::hmm::training::step_weights(f, p, obs, t)).max(
        tiny300(),
    );
    lemma_tiny();
    lemma_order_key(tiny300(), d);
    lemma_zero_value(d);
    lemma_zero_over(w, d);
}

/// No observation is more likely in a state than the state's means.
pub proof fn means_are_most_likely(
    f: Oracle,
    p: HmmParams,
    state: int,
    obs: Seq<Real>,
    centre: Seq<Real>,
    n: nat,
)
    requires
        forall|k: int|
            0 <= k < n ==> (#[trigger] centre[k]) == p.means[state][k] && centre[k].finite()
                && Real::whole(0) < p.covariances[state][k] && p.covariances[state][k].finite()
                && ln_of(f, p.covariances[state][k]).finite() && (obs[k]
                - p.means[state][k]).finite() && ((obs[k] - p.means[state][k]) * (obs[k]
                - p.means[state][k])).finite(),
        forall|k: nat|
            k <= n ==> !(#[trigger] log_density_of(f, p, state, obs, k)).nan() && !log_density_of(
                f,
                p,
                state,
                centre,
                k,
            ).nan(),
    ensures
        log_density_of(f, p, state, obs, n) <= log_density_of(f, p, state, centre, n),
    decreases n,
{
    lemma_whole(0);
    assert(0 * pow2(1074) == 0);
    if n > 0 {
        let m = (n - 1) as nat;
        means_are_most_likely(f, p, state, obs, centre, m);
        let var = p.covariances[state][n - 1];
        let mean = p.means[state][n - 1];
        assert(centre[n - 1] == mean);
        let (d, o) = (obs[n - 1] - mean, centre[n - 1] - mean);
        lemma_difference_sign(mean, mean);
        lemma_zero_value(o);
        lemma_times_zero(o, o);
        lemma_zero_value(var);
        lemma_zero_over(o * o, var);
        lemma_zero_value(o * o / var);
        crate::num::rules::lemma_product_near(d, d);
        let v = d.value();
        assert(v * v >= 0) by (nonlinear_arith);
        lemma_zero_value(d * d);
        lemma_order_key(Real::whole(0), d * d);
        lemma_div_monotone(d * d, d * d, var);
        let (x, y) = (d * d / var, o * o / var);
        assert(y <= x);
        let (a, b) = (ln_of(f, var), ln_of(f, Real::whole(2) * pi()));
        let half = Real::ratio(1, 2);
        let (tx, ty) = (half.neg() * (x + a + b), half.neg() * (y + a + b));
        let (lx, ly) = (
            log_density_of(f, p, state, obs, m),
            log_density_of(f, p, state, centre, m),
        );
        assert(!log_density_of(f, p, state, obs, n).nan());
        assert(!log_density_of(f, p, state, centre, n).nan());
        assert(!log_density_of(f, p, state, centre, m).nan()) by {
            assert(!log_density_of(f, p, state, obs, m).nan());
        }
        lemma_not_nan_sum(lx, tx);
        lemma_not_nan_sum(ly, ty);
        lemma_not_nan_product(half.neg(), x + a + b);
        lemma_not_nan_product(half.neg(), y + a + b);
        lemma_not_nan_sum(x + a, b);
        lemma_not_nan_sum(y + a, b);
        lemma_add_monotone(y, x, a);
        lemma_add_monotone(y + a, x + a, b);
        lemma_halved_order(y + a + b, x + a + b);
        assert(tx <= ty);
        lemma_sum_of_orders(lx, ly, tx, ty);
    }
}

/// Each observation adds the logarithm of its scale to the log likelihood, up to rounding.
pub proof fn likelihood_adds_up(f: Oracle, p: HmmParams, obs: Seq<Seq<Real>>, n: nat)
    requires
        log_likelihood(f, p, obs, n + 1).finite(),
    ensures
        is_sum(
            log_likelihood(f, p, obs, n + 1),
            log_likelihood(f, p, obs, n),
            ln_of(f, scale_of(forward_raw(f, p, obs, n))),
        ),
{
    lemma_operations_are_close(
        log_likelihood(f, p, obs, n),
        ln_of(f, scale_of(forward_raw(f, p, obs, n))),
    );
}

/// After a step of training a state starts as often as it was present first, and its mean
/// times its presence is what was observed at its presence, up to rounding.
pub proof fn training_follows_the_presences(
    f: Oracle,
    p: HmmParams,
    obs: Seq<Seq<Real>>,
    i: int,
    k: int,
)
    requires
        0 <= i < N_STATES,
        0 <= k < p.means[0].len(),
        ({
            let present = sum_of_seq(presences(f, p, obs, i));
            let seen = sum_of_seq(
                Seq::new(obs.len(), |t: int| gamma_at(f, p, obs, t)[i] * obs[t][k]),
            );
            &&& tiny300() <= present
            &&& present.finite()
            &&& seen.finite()
            &&& new_mean(f, p, obs, i, k).finite()
        }),
    ensures
        ({
            let q = improved(f, p, obs);
            let present = sum_of_seq(presences(f, p, obs, i));
            let seen = sum_of_seq(
                Seq::new(obs.len(), |t: int| gamma_at(f, p, obs, t)[i] * obs[t][k]),
            );
            &&& q.pi == gamma_at(f, p, obs, 0)
            &&& is_quotient(q.means[i][k], seen, present)
            &&& Real::ratio(1, 10_000_000_000) <= q.covariances[i][k]
        }),
{
    let present = sum_of_seq(presences(f, p, obs, i));
    let seen = sum_of_seq(Seq::new(obs.len(), |t: int| gamma_at(f, p, obs, t)[i] * obs[t][k]));
    lemma_tiny();
    lemma_order_key(tiny300(), present);
    lemma_operations_are_close(seen, present);
    let q = improved(f, p, obs);
    assert(q.means[i][k] == seen / present);
    crate::num::rules::lemma_small_ratio(10_000_000_000);
    let v = q.covariances[i][k];
    crate::num::order::lemma_ratio_order(1, 10_000_000_000, 1, 10_000_000_000);
    if !v.nan() {
        lemma_order_key(Real::ratio(1, 10_000_000_000), v);
    }
}

} // verus!
