//! Baum-Welch training.
use vstd::prelude::*;

use crate::hmm::model::{
    alpha_at, emission_of, log_likelihood, normalise, normalised, rows, HmmModel, HmmParams,
    N_STATES,
};
use crate::num::constants::{minus_infinity, tiny300};
use crate::num::elementary::{is_function, oracle, Elementary, Oracle};
use crate::num::series::{products, sum, sum_of_seq, tally, total};
use crate::num::Real;

verus! {

/// The terms by which state `i` leads on to the next observation.
pub open spec fn outflow(
    f: Oracle,
    p: HmmParams,
    i: int,
    obs: Seq<Real>,
    after: Seq<Real>,
) -> Seq<Real> {
    Seq::new(
        N_STATES as nat,
        |j: int| p.transition[i][j] * emission_of(f, p, j, obs) * after[j],
    )
}

/// The backward row at time `t` of `n` before scaling, from the row after it.
pub open spec fn backward_raw(
    f: Oracle,
    p: HmmParams,
    obs: Seq<Real>,
    after: Seq<Real>,
) -> Seq<Real> {
    Seq::new(N_STATES as nat, |i: int| sum_of_seq(outflow(f, p, i, obs, after)))
}

/// The backward row at time `t`: how well each state explains what follows.
pub open spec fn beta_at(f: Oracle, p: HmmParams, obs: Seq<Seq<Real>>, t: int) -> Seq<Real>
    decreases obs.len() - t,
{
    if t >= obs.len() - 1 {
        Seq::new(N_STATES as nat, |i: int| Real::whole(1))
    } else {
        normalised(backward_raw(f, p, obs[t + 1], beta_at(f, p, obs, t + 1)))
    }
}

/// The probability of each state at time `t` given all observations.
pub open spec fn gamma_at(f: Oracle, p: HmmParams, obs: Seq<Seq<Real>>, t: int) -> Seq<Real> {
    normalised(products(alpha_at(f, p, obs, t as nat), beta_at(f, p, obs, t)))
}

/// The weight of the step from state `i` to state `j` after time `t`.
pub open spec fn step_weight(
    f: Oracle,
    p: HmmParams,
    obs: Seq<Seq<Real>>,
    t: int,
    i: int,
    j: int,
) -> Real {
    alpha_at(f, p, obs, t as nat)[i] * p.transition[i][j] * emission_of(f, p, j, obs[t + 1])
        * beta_at(f, p, obs, t + 1)[j]
}

/// The weights of all steps after time `t`, column by column.
pub open spec fn step_weights(f: Oracle, p: HmmParams, obs: Seq<Seq<Real>>, t: int) -> Seq<Real> {
    Seq::new(
        (N_STATES * N_STATES) as nat,
        |n: int| step_weight(f, p, obs, t, n % (N_STATES as int), n / (N_STATES as int)),
    )
}

/// The probability of the step from state `i` to state `j` after time `t`.
pub open spec fn xi_at(
    f: Oracle,
    p: HmmParams,
    obs: Seq<Seq<Real>>,
    t: int,
    i: int,
    j: int,
) -> Real {
    step_weight(f, p, obs, t, i, j) / tally(step_weights(f, p, obs, t)).max(tiny300())
}

/// The probabilities of the steps from state `i` after time `t`.
pub open spec fn xi_row(f: Oracle, p: HmmParams, obs: Seq<Seq<Real>>, t: int, i: int) -> Seq<Real> {
    Seq::new(N_STATES as nat, |j: int| xi_at(f, p, obs, t, i, j))
}

/// The number of times that state `i` is left.
pub open spec fn leaving(f: Oracle, p: HmmParams, obs: Seq<Seq<Real>>, i: int) -> Real {
    sum_of_seq(
        Seq::new((obs.len() - 1) as nat, |t: int| tally(xi_row(f, p, obs, t, i))),
    )
}

/// The number of steps from state `i` to state `j`.
pub open spec fn stepping(f: Oracle, p: HmmParams, obs: Seq<Seq<Real>>, i: int, j: int) -> Real {
    sum_of_seq(Seq::new((obs.len() - 1) as nat, |t: int| xi_at(f, p, obs, t, i, j)))
}

/// The share of steps from state `i` to each state.
pub open spec fn step_shares(f: Oracle, p: HmmParams, obs: Seq<Seq<Real>>, i: int) -> Seq<Real> {
    Seq::new(
        N_STATES as nat,
        |j: int| stepping(f, p, obs, i, j) / leaving(f, p, obs, i).max(tiny300()),
    )
}

/// The presence of state `i` over time.
pub open spec fn presences(f: Oracle, p: HmmParams, obs: Seq<Seq<Real>>, i: int) -> Seq<Real> {
    Seq::new(obs.len(), |t: int| gamma_at(f, p, obs, t)[i])
}

/// The mean of quantity `k` in state `i`.
pub open spec fn new_mean(f: Oracle, p: HmmParams, obs: Seq<Seq<Real>>, i: int, k: int) -> Real {
    sum_of_seq(Seq::new(obs.len(), |t: int| gamma_at(f, p, obs, t)[i] * obs[t][k])) / sum_of_seq(
        presences(f, p, obs, i),
    ).max(tiny300())
}

/// The variance of quantity `k` in state `i`.
pub open spec fn new_variance(f: Oracle, p: HmmParams, obs: Seq<Seq<Real>>, i: int, k: int) -> Real {
    let mu = new_mean(f, p, obs, i, k);
    (sum_of_seq(
        Seq::new(
            obs.len(),
            |t: int| gamma_at(f, p, obs, t)[i] * ((obs[t][k] - mu) * (obs[t][k] - mu)),
        ),
    ) / sum_of_seq(presences(f, p, obs, i)).max(tiny300())).max(Real::ratio(1, 10_000_000_000))
}

/// The parameters after one step of expectation maximization.
pub open spec fn improved(f: Oracle, p: HmmParams, obs: Seq<Seq<Real>>) -> HmmParams {
    let k = p.means[0].len();
    HmmParams {
        pi: gamma_at(f, p, obs, 0),
        transition: Seq::new(N_STATES as nat, |i: int| normalised(step_shares(f, p, obs, i))),
        means: Seq::new(
            N_STATES as nat,
            |i: int| Seq::new(k, |j: int| new_mean(f, p, obs, i, j)),
        ),
        covariances: Seq::new(
            N_STATES as nat,
            |i: int| Seq::new(k, |j: int| new_variance(f, p, obs, i, j)),
        ),
    }
}

/// The parameters after at most `n` more steps: training stops when the log
/// likelihood changes by less than a millionth.
pub open spec fn trained_from(
    f: Oracle,
    p: HmmParams,
    obs: Seq<Seq<Real>>,
    prev_ll: Real,
    n: nat,
) -> HmmParams
    decreases n,
{
    let ll = log_likelihood(f, p, obs, obs.len());
    if n == 0 || (ll - prev_ll).abs() < Real::ratio(1, 1_000_000) {
        p
    } else {
        trained_from(f, improved(f, p, obs), obs, ll, (n - 1) as nat)
    }
}

/// Most steps of training.
pub const MAX_STEPS: usize = 200;

/// Why a model cannot be trained: there are fewer than ten observations.
#[derive(Debug, Clone, Copy, PartialEq, Eq, Structural)]
pub struct TooFewObservations {
    pub have: usize,
}

/// The expectations of one step of training.
#[derive(Debug)]
struct Expected {
    gamma: Vec<Vec<Real>>,
    /// Probabilities of steps per time and row.
    xi: Vec<Vec<Vec<Real>>>,
}

spec fn expected_wf(e: Expected, f: Oracle, p: HmmParams, obs: Seq<Seq<Real>>) -> bool {
    &&& e.gamma@.len() == obs.len()
    &&& forall|t: int|
        0 <= t < obs.len() ==> (#[trigger] e.gamma@[t])@ == gamma_at(f, p, obs, t)
            && e.gamma@[t]@.len() == N_STATES
    &&& e.xi@.len() == obs.len() - 1
    &&& forall|t: int|
        0 <= t < obs.len() - 1 ==> (#[trigger] e.xi@[t])@.len() == N_STATES
    &&& forall|t: int, i: int|
        0 <= t < obs.len() - 1 && 0 <= i < N_STATES ==> (#[trigger] e.xi@[t]@[i])@ == xi_row(
            f,
            p,
            obs,
            t,
            i,
        )
}

impl HmmModel {
    fn backward_step<M: Fn(Elementary) -> Real>(
        &self,
        obs: &Vec<Real>,
        after: &Vec<Real>,
        math: &M,
    ) -> (r: Vec<Real>)
        requires
            self.wf(),
            after@.len() == N_STATES,
            is_function(*math),
        ensures
            r@ == normalised(backward_raw(oracle(*math), self.params(), obs@, after@)),
            r@.len() == N_STATES,
    {
        let ghost f = oracle(*math);
        let ghost p = self.params();
        let ghost goal = backward_raw(f, p, obs@, after@);
        let mut out: Vec<Real> = Vec::new();
        let mut i: usize = 0;
        while i < N_STATES
            invariant
                self.wf(),
                is_function(*math),
                f == oracle(*math),
                p == self.params(),
                after@.len() == N_STATES,
                i <= N_STATES,
                goal == backward_raw(f, p, obs@, after@),
                out@ =~= goal.take(i as int),
            decreases N_STATES - i,
        {
            let mut terms: Vec<Real> = Vec::new();
            let mut j: usize = 0;
            assert(p.transition[i as int].len() == N_STATES);
            while j < N_STATES
                invariant
                    self.wf(),
                    is_function(*math),
                    f == oracle(*math),
                    p == self.params(),
                    after@.len() == N_STATES,
                    i < N_STATES,
                    p.transition[i as int].len() == N_STATES,
                    j <= N_STATES,
                    terms@ =~= outflow(f, p, i as int, obs@, after@).take(j as int),
                decreases N_STATES - j,
            {
                terms.push(self.transition[i][j] * self.emission(j, obs, math) * after[j]);
                j += 1;
            }
            assert(terms@ =~= outflow(f, p, i as int, obs@, after@));
            out.push(sum(terms.as_slice()));
            i += 1;
        }
        assert(out@ =~= goal);
        normalise(&out)
    }

    /// The backward rows, last first.
    fn backward<M: Fn(Elementary) -> Real>(&self, observations: &Vec<Vec<Real>>, math: &M) -> (r:
        Vec<Vec<Real>>)
        requires
            self.wf(),
            observations@.len() > 0,
            is_function(*math),
        ensures
            r@.len() == observations@.len(),
            forall|s: int|
                0 <= s < r@.len() ==> (#[trigger] r@[s])@ == beta_at(
                    oracle(*math),
                    self.params(),
                    rows(observations@),
                    observations@.len() - 1 - s,
                ) && r@[s]@.len() == N_STATES,
    {
        let ghost f = oracle(*math);
        let ghost p = self.params();
        let ghost obs = rows(observations@);
        let len: usize = observations.len();
        let one = Real::whole(1);
        let mut beta: Vec<Vec<Real>> = Vec::new();
        let last = vec![one, one, one, one];
        assert(last@ =~= Seq::new(N_STATES as nat, |i: int| Real::whole(1)));
        beta.push(last);
        let mut s: usize = 1;
        while s < len
            invariant
                self.wf(),
                is_function(*math),
                f == oracle(*math),
                p == self.params(),
                obs == rows(observations@),
                len == observations@.len(),
                1 <= s <= len,
                beta@.len() == s,
                forall|i: int|
                    0 <= i < s ==> (#[trigger] beta@[i])@ == beta_at(f, p, obs, len - 1 - i)
                        && beta@[i]@.len() == N_STATES,
            decreases len - s,
        {
            assert(obs[len - s] == observations@[len - s]@);
            let row = self.backward_step(&observations[len - s], &beta[s - 1], math);
            beta.push(row);
            s += 1;
        }
        beta
    }

    fn step_probabilities<M: Fn(Elementary) -> Real>(
        &self,
        alpha: &Vec<Real>,
        next_obs: &Vec<Real>,
        beta: &Vec<Real>,
        math: &M,
        Ghost(obs): Ghost<Seq<Seq<Real>>>,
        Ghost(t): Ghost<int>,
    ) -> (r: Vec<Vec<Real>>)
        requires
            self.wf(),
            is_function(*math),
            0 <= t < obs.len() - 1,
            alpha@ == alpha_at(oracle(*math), self.params(), obs, t as nat),
            alpha@.len() == N_STATES,
            next_obs@ == obs[t + 1],
            beta@ == beta_at(oracle(*math), self.params(), obs, t + 1),
            beta@.len() == N_STATES,
        ensures
            r@.len() == N_STATES,
            forall|i: int|
                0 <= i < N_STATES ==> (#[trigger] r@[i])@ == xi_row(
                    oracle(*math),
                    self.params(),
                    obs,
                    t,
                    i,
                ),
    {
        let ghost f = oracle(*math);
        let ghost p = self.params();
        let mut emissions: Vec<Real> = Vec::new();
        let mut e: usize = 0;
        while e < N_STATES
            invariant
                self.wf(),
                is_function(*math),
                f == oracle(*math),
                p == self.params(),
                e <= N_STATES,
                emissions@.len() == e,
                forall|j: int|
                    0 <= j < e ==> #[trigger] emissions@[j] == emission_of(f, p, j, next_obs@),
            decreases N_STATES - e,
        {
            emissions.push(self.emission(e, next_obs, math));
            e += 1;
        }
        let ghost goal = step_weights(f, p, obs, t);
        let mut flat: Vec<Real> = Vec::new();
        let mut j: usize = 0;
        while j < N_STATES
            invariant
                self.wf(),
                f == oracle(*math),
                p == self.params(),
                j <= N_STATES,
                0 <= t < obs.len() - 1,
                alpha@ == alpha_at(f, p, obs, t as nat),
                alpha@.len() == N_STATES,
                beta@ == beta_at(f, p, obs, t + 1),
                beta@.len() == N_STATES,
                next_obs@ == obs[t + 1],
                emissions@.len() == N_STATES,
                forall|j: int|
                    0 <= j < N_STATES ==> #[trigger] emissions@[j] == emission_of(
                        f,
                        p,
                        j,
                        next_obs@,
                    ),
                goal == step_weights(f, p, obs, t),
                flat@ =~= goal.take(4 * j),
            decreases N_STATES - j,
        {
            let mut i: usize = 0;
            while i < N_STATES
                invariant
                    self.wf(),
                    f == oracle(*math),
                    p == self.params(),
                    i <= N_STATES,
                    j < N_STATES,
                    0 <= t < obs.len() - 1,
                    alpha@ == alpha_at(f, p, obs, t as nat),
                    alpha@.len() == N_STATES,
                    beta@ == beta_at(f, p, obs, t + 1),
                    beta@.len() == N_STATES,
                    next_obs@ == obs[t + 1],
                    emissions@.len() == N_STATES,
                    forall|j: int|
                        0 <= j < N_STATES ==> #[trigger] emissions@[j] == emission_of(
                            f,
                            p,
                            j,
                            next_obs@,
                        ),
                    goal == step_weights(f, p, obs, t),
                    flat@ =~= goal.take(4 * j + i),
                decreases N_STATES - i,
            {
                assert(p.transition[i as int].len() == N_STATES);
                flat.push(alpha[i] * self.transition[i][j] * emissions[j] * beta[j]);
                assert((4 * j + i) % 4 == i && (4 * j + i) / 4 == j);
                i += 1;
            }
            j += 1;
        }
        assert(flat@ =~= goal);
        let scale = total(flat.as_slice()).max(tiny300());
        let mut out: Vec<Vec<Real>> = Vec::new();
        let mut i: usize = 0;
        while i < N_STATES
            invariant
                i <= N_STATES,
                f == oracle(*math),
                p == self.params(),
                goal == step_weights(f, p, obs, t),
                flat@ == goal,
                scale == tally(goal).max(tiny300()),
                out@.len() == i,
                forall|k: int|
                    0 <= k < i ==> (#[trigger] out@[k])@ == xi_row(f, p, obs, t, k),
            decreases N_STATES - i,
        {
            let mut row: Vec<Real> = Vec::new();
            let ghost want = xi_row(f, p, obs, t, i as int);
            let mut j: usize = 0;
            while j < N_STATES
                invariant
                    i < N_STATES,
                    j <= N_STATES,
                    goal == step_weights(f, p, obs, t),
                    flat@ == goal,
                    scale == tally(goal).max(tiny300()),
                    want == xi_row(f, p, obs, t, i as int),
                    row@ =~= want.take(j as int),
                decreases N_STATES - j,
            {
                assert((4 * j + i) % 4 == i && (4 * j + i) / 4 == j);
                assert(goal[4 * j + i] == step_weight(f, p, obs, t, i as int, j as int));
                row.push(flat[4 * j + i] / scale);
                j += 1;
            }
            assert(row@ =~= want);
            out.push(row);
            i += 1;
        }
        out
    }

    fn expect<M: Fn(Elementary) -> Real>(
        &self,
        observations: &Vec<Vec<Real>>,
        alpha: &Vec<Vec<Real>>,
        math: &M,
    ) -> (r: Expected)
        requires
            self.wf(),
            observations@.len() > 0,
            is_function(*math),
            alpha@.len() == observations@.len(),
            forall|t: int|
                0 <= t < observations@.len() ==> (#[trigger] alpha@[t])@ == alpha_at(
                    oracle(*math),
                    self.params(),
                    rows(observations@),
                    t as nat,
                ),
        ensures
            expected_wf(r, oracle(*math), self.params(), rows(observations@)),
    {
        let ghost f = oracle(*math);
        let ghost p = self.params();
        let ghost obs = rows(observations@);
        let len: usize = observations.len();
        let beta = self.backward(observations, math);
        let mut gamma: Vec<Vec<Real>> = Vec::new();
        let mut xi: Vec<Vec<Vec<Real>>> = Vec::new();
        let mut t: usize = 0;
        while t < len
            invariant
                self.wf(),
                is_function(*math),
                f == oracle(*math),
                p == self.params(),
                obs == rows(observations@),
                len == observations@.len(),
                alpha@.len() == len,
                forall|t: int|
                    0 <= t < len ==> (#[trigger] alpha@[t])@ == alpha_at(f, p, obs, t as nat),
                beta@.len() == len,
                forall|s: int|
                    0 <= s < len ==> (#[trigger] beta@[s])@ == beta_at(f, p, obs, len - 1 - s)
                        && beta@[s]@.len() == N_STATES,
                t <= len,
                gamma@.len() == t,
                forall|s: int|
                    0 <= s < t ==> (#[trigger] gamma@[s])@ == gamma_at(f, p, obs, s)
                        && gamma@[s]@.len() == N_STATES,
                xi@.len() == if t < len {
                    t as int
                } else {
                    len - 1
                },
                forall|s: int| 0 <= s < xi@.len() ==> (#[trigger] xi@[s])@.len() == N_STATES,
                forall|s: int, i: int|
                    0 <= s < xi@.len() && 0 <= i < N_STATES ==> (#[trigger] xi@[s]@[i])@ == xi_row(
                        f,
                        p,
                        obs,
                        s,
                        i,
                    ),
            decreases len - t,
        {
            let a = &alpha[t];
            let b = &beta[len - 1 - t];
            assert(a@ == alpha_at(f, p, obs, t as nat));
            assert(a@.len() == N_STATES) by {
                lemma_alpha_size(f, p, obs, t as nat);
            }
            let ghost prod = products(a@, b@);
            let mut raw: Vec<Real> = Vec::new();
            let mut i: usize = 0;
            while i < N_STATES
                invariant
                    i <= N_STATES,
                    a@.len() == N_STATES,
                    b@.len() == N_STATES,
                    prod == products(a@, b@),
                    raw@ =~= prod.take(i as int),
                decreases N_STATES - i,
            {
                raw.push(a[i] * b[i]);
                i += 1;
            }
            assert(raw@ =~= prod);
            gamma.push(normalise(&raw));
            if t + 1 < len {
                assert(obs[t + 1] == observations@[t + 1]@);
                let m = self.step_probabilities(
                    a,
                    &observations[t + 1],
                    &beta[len - 2 - t],
                    math,
                    Ghost(obs),
                    Ghost(t as int),
                );
                let ghost before = xi@;
                xi.push(m);
                assert forall|s: int, i: int| 0 <= s < xi@.len() && 0 <= i < N_STATES implies (
                #[trigger] xi@[s]@[i])@ == xi_row(f, p, obs, s, i) by {
                    if s < before.len() {
                        assert(xi@[s] == before[s]);
                        assert(before[s]@[i]@ == xi_row(f, p, obs, s, i));
                    } else {
                        assert(xi@[s] == m);
                        assert(m@[i]@ == xi_row(f, p, obs, s, i));
                    }
                }
            }
            t += 1;
        }
        Expected { gamma, xi }
    }

    fn new_transition(
        e: &Expected,
        i: usize,
        Ghost(f): Ghost<Oracle>,
        Ghost(p): Ghost<HmmParams>,
        Ghost(obs): Ghost<Seq<Seq<Real>>>,
    ) -> (r: Vec<Real>)
        requires
            i < N_STATES,
            obs.len() > 0,
            expected_wf(*e, f, p, obs),
        ensures
            r@ == normalised(step_shares(f, p, obs, i as int)),
            r@.len() == N_STATES,
    {
        let n: usize = e.xi.len();
        let ghost leave = Seq::new((obs.len() - 1) as nat, |t: int| tally(xi_row(f, p, obs, t, i as int)));
        let mut sums: Vec<Real> = Vec::new();
        let mut t: usize = 0;
        while t < n
            invariant
                i < N_STATES,
                n == e.xi@.len(),
                expected_wf(*e, f, p, obs),
                t <= n,
                leave == Seq::new(
                    (obs.len() - 1) as nat,
                    |t: int| tally(xi_row(f, p, obs, t, i as int)),
                ),
                sums@ =~= leave.take(t as int),
            decreases n - t,
        {
            assert(e.xi@[t as int]@[i as int]@ == xi_row(f, p, obs, t as int, i as int));
            sums.push(total(e.xi[t][i].as_slice()));
            t += 1;
        }
        assert(sums@ =~= leave);
        let row_sum = sum(sums.as_slice()).max(tiny300());
        let ghost goal = step_shares(f, p, obs, i as int);
        let mut shares: Vec<Real> = Vec::new();
        let mut j: usize = 0;
        while j < N_STATES
            invariant
                i < N_STATES,
                n == e.xi@.len(),
                expected_wf(*e, f, p, obs),
                j <= N_STATES,
                row_sum == leaving(f, p, obs, i as int).max(tiny300()),
                goal == step_shares(f, p, obs, i as int),
                shares@ =~= goal.take(j as int),
            decreases N_STATES - j,
        {
            let ghost steps = Seq::new(
                (obs.len() - 1) as nat,
                |t: int| xi_at(f, p, obs, t, i as int, j as int),
            );
            let mut v: Vec<Real> = Vec::new();
            let mut t: usize = 0;
            while t < n
                invariant
                    i < N_STATES,
                    j < N_STATES,
                    n == e.xi@.len(),
                    expected_wf(*e, f, p, obs),
                    t <= n,
                    steps == Seq::new(
                        (obs.len() - 1) as nat,
                        |t: int| xi_at(f, p, obs, t, i as int, j as int),
                    ),
                    v@ =~= steps.take(t as int),
                decreases n - t,
            {
                assert(e.xi@[t as int]@[i as int]@ == xi_row(f, p, obs, t as int, i as int));
                v.push(e.xi[t][i][j]);
                t += 1;
            }
            assert(v@ =~= steps);
            shares.push(sum(v.as_slice()) / row_sum);
            j += 1;
        }
        assert(shares@ =~= goal);
        normalise(&shares)
    }

    fn new_moments(
        e: &Expected,
        observations: &Vec<Vec<Real>>,
        i: usize,
        k: usize,
        Ghost(f): Ghost<Oracle>,
        Ghost(p): Ghost<HmmParams>,
    ) -> (r: (Real, Real))
        requires
            i < N_STATES,
            observations@.len() > 0,
            forall|t: int|
                0 <= t < observations@.len() ==> k < (#[trigger] observations@[t])@.len(),
            expected_wf(*e, f, p, rows(observations@)),
        ensures
            r.0 == new_mean(f, p, rows(observations@), i as int, k as int),
            r.1 == new_variance(f, p, rows(observations@), i as int, k as int),
    {
        let ghost obs = rows(observations@);
        let len: usize = observations.len();
        let ghost all = presences(f, p, obs, i as int);
        let ghost weighed = Seq::new(
            obs.len(),
            |t: int| gamma_at(f, p, obs, t)[i as int] * obs[t][k as int],
        );
        let mut g: Vec<Real> = Vec::new();
        let mut w: Vec<Real> = Vec::new();
        let mut t: usize = 0;
        while t < len
            invariant
                i < N_STATES,
                len == observations@.len(),
                obs == rows(observations@),
                forall|t: int|
                    0 <= t < observations@.len() ==> k < (#[trigger] observations@[t])@.len(),
                expected_wf(*e, f, p, obs),
                t <= len,
                all == presences(f, p, obs, i as int),
                weighed == Seq::new(
                    obs.len(),
                    |t: int| gamma_at(f, p, obs, t)[i as int] * obs[t][k as int],
                ),
                g@ =~= all.take(t as int),
                w@ =~= weighed.take(t as int),
            decreases len - t,
        {
            assert(e.gamma@[t as int]@ == gamma_at(f, p, obs, t as int));
            assert(obs[t as int] == observations@[t as int]@);
            let gt = e.gamma[t][i];
            g.push(gt);
            w.push(gt * observations[t][k]);
            t += 1;
        }
        assert(g@ =~= all);
        assert(w@ =~= weighed);
        let g_sum = sum(g.as_slice()).max(tiny300());
        let mu = sum(w.as_slice()) / g_sum;
        let ghost spread = Seq::new(
            obs.len(),
            |t: int|
                gamma_at(f, p, obs, t)[i as int] * ((obs[t][k as int] - mu) * (obs[t][k as int]
                    - mu)),
        );
        let mut v: Vec<Real> = Vec::new();
        let mut s: usize = 0;
        while s < len
            invariant
                i < N_STATES,
                len == observations@.len(),
                obs == rows(observations@),
                forall|t: int|
                    0 <= t < observations@.len() ==> k < (#[trigger] observations@[t])@.len(),
                g@ == presences(f, p, obs, i as int),
                s <= len,
                spread == Seq::new(
                    obs.len(),
                    |t: int|
                        gamma_at(f, p, obs, t)[i as int] * ((obs[t][k as int] - mu) * (
                        obs[t][k as int] - mu)),
                ),
                v@ =~= spread.take(s as int),
            decreases len - s,
        {
            assert(obs[s as int] == observations@[s as int]@);
            let d = observations[s][k] - mu;
            v.push(g[s] * (d * d));
            s += 1;
        }
        assert(v@ =~= spread);
        let var = (sum(v.as_slice()) / g_sum).max(Real::ratio(1, 10_000_000_000));
        (mu, var)
    }

    fn improve<M: Fn(Elementary) -> Real>(
        &mut self,
        observations: &Vec<Vec<Real>>,
        alpha: &Vec<Vec<Real>>,
        math: &M,
    )
        requires
            old(self).wf(),
            observations@.len() > 0,
            forall|t: int|
                0 <= t < observations@.len() ==> (#[trigger] observations@[t])@.len()
                    >= old(self).n_obs,
            is_function(*math),
            alpha@.len() == observations@.len(),
            forall|t: int|
                0 <= t < observations@.len() ==> (#[trigger] alpha@[t])@ == alpha_at(
                    oracle(*math),
                    old(self).params(),
                    rows(observations@),
                    t as nat,
                ),
        ensures
            final(self).wf(),
            final(self).n_obs == old(self).n_obs,
            final(self).params() == improved(
                oracle(*math),
                old(self).params(),
                rows(observations@),
            ),
    {
        let ghost f = oracle(*math);
        let ghost p = self.params();
        let ghost obs = rows(observations@);
        let ghost goal = improved(f, p, obs);
        let e = self.expect(observations, alpha, math);
        let n_obs: usize = self.n_obs;
        assert(p.means[0].len() == n_obs);
        let mut pi: Vec<Real> = Vec::new();
        let mut s: usize = 0;
        assert(e.gamma@[0]@ == gamma_at(f, p, obs, 0));
        while s < N_STATES
            invariant
                s <= N_STATES,
                obs == rows(observations@),
                observations@.len() > 0,
                expected_wf(e, f, p, obs),
                e.gamma@[0]@ == gamma_at(f, p, obs, 0),
                pi@ =~= gamma_at(f, p, obs, 0).take(s as int),
            decreases N_STATES - s,
        {
            pi.push(e.gamma[0][s]);
            s += 1;
        }
        assert(pi@ =~= gamma_at(f, p, obs, 0));
        let mut transition: Vec<Vec<Real>> = Vec::new();
        let mut means: Vec<Vec<Real>> = Vec::new();
        let mut covariances: Vec<Vec<Real>> = Vec::new();
        let mut i: usize = 0;
        while i < N_STATES
            invariant
                i <= N_STATES,
                obs == rows(observations@),
                observations@.len() > 0,
                forall|t: int|
                    0 <= t < observations@.len() ==> (#[trigger] observations@[t])@.len() >= n_obs,
                expected_wf(e, f, p, obs),
                goal == improved(f, p, obs),
                p.means[0].len() == n_obs,
                rows(transition@) =~= goal.transition.take(i as int),
                rows(means@) =~= goal.means.take(i as int),
                rows(covariances@) =~= goal.covariances.take(i as int),
            decreases N_STATES - i,
        {
            let row = Self::new_transition(&e, i, Ghost(f), Ghost(p), Ghost(obs));
            let mut mu_row: Vec<Real> = Vec::new();
            let mut var_row: Vec<Real> = Vec::new();
            let mut k: usize = 0;
            while k < n_obs
                invariant
                    i < N_STATES,
                    k <= n_obs,
                    obs == rows(observations@),
                    observations@.len() > 0,
                    forall|t: int|
                        0 <= t < observations@.len() ==> (#[trigger] observations@[t])@.len()
                            >= n_obs,
                    expected_wf(e, f, p, obs),
                    goal == improved(f, p, obs),
                    p.means[0].len() == n_obs,
                    mu_row@ =~= goal.means[i as int].take(k as int),
                    var_row@ =~= goal.covariances[i as int].take(k as int),
                decreases n_obs - k,
            {
                let (mu, var) = Self::new_moments(&e, observations, i, k, Ghost(f), Ghost(p));
                mu_row.push(mu);
                var_row.push(var);
                k += 1;
            }
            assert(mu_row@ =~= goal.means[i as int]);
            assert(var_row@ =~= goal.covariances[i as int]);
            let ghost (t0, m0, c0) = (transition@, means@, covariances@);
            transition.push(row);
            means.push(mu_row);
            covariances.push(var_row);
            proof {
                assert(rows(transition@) =~= rows(t0).push(row@));
                assert(rows(means@) =~= rows(m0).push(mu_row@));
                assert(rows(covariances@) =~= rows(c0).push(var_row@));
            }
            i += 1;
        }
        self.pi = pi;
        self.transition = transition;
        self.means = means;
        self.covariances = covariances;
        proof {
            assert(rows(self.transition@) =~= goal.transition);
            assert(rows(self.means@) =~= goal.means);
            assert(rows(self.covariances@) =~= goal.covariances);
            assert forall|i: int| 0 <= i < N_STATES implies (
            #[trigger] goal.transition[i]).len() == N_STATES by {}
        }
    }

    /// Trains the model by expectation maximization: at most two hundred steps,
    /// until the log likelihood changes by less than a millionth.
    pub fn fit<M: Fn(Elementary) -> Real>(&mut self, observations: &Vec<Vec<Real>>, math: &M) -> (r:
        Result<(), TooFewObservations>)
        requires
            old(self).wf(),
            observations@.len() >= 10 ==> forall|t: int|
                0 <= t < observations@.len() ==> (#[trigger] observations@[t])@.len()
                    >= old(self).n_obs,
            is_function(*math),
        ensures
            final(self).wf(),
            final(self).n_obs == old(self).n_obs,
            observations@.len() < 10 ==> r == Err::<(), TooFewObservations>(
                TooFewObservations { have: observations@.len() as usize },
            ) && *final(self) == *old(self),
            observations@.len() >= 10 ==> r is Ok && final(self).params() == trained_from(
                oracle(*math),
                old(self).params(),
                rows(observations@),
                minus_infinity(),
                MAX_STEPS as nat,
            ),
    {
        let len: usize = observations.len();
        if len < 10 {
            return Err(TooFewObservations { have: len });
        }
        let ghost f = oracle(*math);
        let ghost obs = rows(observations@);
        let mut prev_ll = minus_infinity();
        let mut n: usize = 0;
        let mut done = false;
        while n < MAX_STEPS && !done
            invariant
                self.wf(),
                self.n_obs == old(self).n_obs,
                is_function(*math),
                f == oracle(*math),
                obs == rows(observations@),
                observations@.len() >= 10,
                forall|t: int|
                    0 <= t < observations@.len() ==> (#[trigger] observations@[t])@.len()
                        >= self.n_obs,
                n <= MAX_STEPS,
                trained_from(f, old(self).params(), obs, minus_infinity(), MAX_STEPS as nat)
                    == if done {
                    self.params()
                } else {
                    trained_from(f, self.params(), obs, prev_ll, (MAX_STEPS - n) as nat)
                },
            decreases MAX_STEPS - n,
        {
            let (alpha, ll) = self.forward(observations, math);
            if (ll - prev_ll).abs() < Real::ratio(1, 1_000_000) {
                done = true;
            } else {
                prev_ll = ll;
                self.improve(observations, &alpha, math);
            }
            n += 1;
        }
        Ok(())
    }
}

proof fn lemma_alpha_size(f: Oracle, p: HmmParams, obs: Seq<Seq<Real>>, t: nat)
    ensures
        alpha_at(f, p, obs, t).len() == N_STATES,
{
}

} // verus!
