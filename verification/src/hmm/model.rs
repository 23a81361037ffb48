//! Hidden Markov model with diagonal Gaussian emissions.
//!
//! The four states are a bull trend, a bear trend, consolidation and high
//! volatility. An observation holds the directional edges of two assets, the
//! volatility, the correlation, the exposure, the funding and the number of
//! positions.
use vstd::prelude::*;

use crate::hmm::regime::{Regime, RegimeState};
use crate::num::constants::{pi, tiny300};
use crate::num::elementary::{exp, exp_of, is_function, ln, ln_of, oracle, Elementary, Oracle};
use crate::num::series::{argmax, last_max, sum, sum_of_seq};
use crate::num::Real;

verus! {

/// Number of states.
pub const N_STATES: usize = 4;

/// Length of an observation.
pub const N_OBS: usize = 7;

/// The parameters of a model.
pub struct HmmParams {
    /// Probability of each state at the start.
    pub pi: Seq<Real>,
    /// Probability of each state after each state.
    pub transition: Seq<Seq<Real>>,
    /// Mean of each observed quantity per state.
    pub means: Seq<Seq<Real>>,
    /// Variance of each observed quantity per state.
    pub covariances: Seq<Seq<Real>>,
}

/// The model.
#[derive(Debug)]
pub struct HmmModel {
    pub n_obs: usize,
    pub pi: Vec<Real>,
    pub transition: Vec<Vec<Real>>,
    pub means: Vec<Vec<Real>>,
    pub covariances: Vec<Vec<Real>>,
}

/// The rows of a matrix.
pub open spec fn rows(m: Seq<Vec<Real>>) -> Seq<Seq<Real>> {
    m.map_values(|r: Vec<Real>| r@)
}

/// A matrix of the given size.
pub open spec fn sized(m: Seq<Seq<Real>>, height: nat, width: nat) -> bool {
    m.len() == height && forall|i: int| 0 <= i < height ==> (#[trigger] m[i]).len() == width
}

/// The log density of the first `n` quantities of an observation in a state.
pub open spec fn log_density_of(
    f: Oracle,
    p: HmmParams,
    state: int,
    obs: Seq<Real>,
    n: nat,
) -> Real
    decreases n,
{
    if n == 0 {
        Real::whole(0)
    } else {
        let var = p.covariances[state][n - 1];
        let diff = obs[n - 1] - p.means[state][n - 1];
        log_density_of(f, p, state, obs, (n - 1) as nat) + Real::ratio(1, 2).neg() * (diff * diff
            / var + ln_of(f, var) + ln_of(f, Real::whole(2) * pi()))
    }
}

/// How many quantities of an observation count.
pub open spec fn counted(p: HmmParams, obs: Seq<Real>) -> nat {
    let k = p.means[0].len();
    if k <= obs.len() {
        k
    } else {
        obs.len()
    }
}

/// The log density of an observation in a state.
pub open spec fn log_emission_of(f: Oracle, p: HmmParams, state: int, obs: Seq<Real>) -> Real {
    log_density_of(f, p, state, obs, counted(p, obs))
}

/// The density of an observation in a state, kept positive.
pub open spec fn emission_of(f: Oracle, p: HmmParams, state: int, obs: Seq<Real>) -> Real {
    exp_of(f, log_emission_of(f, p, state, obs)).max(tiny300())
}

/// The scale of a row: its sum, kept positive.
pub open spec fn scale_of(raw: Seq<Real>) -> Real {
    sum_of_seq(raw).max(tiny300())
}

/// A row divided by its scale.
pub open spec fn normalised(raw: Seq<Real>) -> Seq<Real> {
    raw.map_values(|x: Real| x / scale_of(raw))
}

/// The joint densities of the first observation and each state.
pub open spec fn first_row(f: Oracle, p: HmmParams, obs: Seq<Real>) -> Seq<Real> {
    Seq::new(N_STATES as nat, |i: int| p.pi[i] * emission_of(f, p, i, obs))
}

/// The terms by which each state leads to state `j`.
pub open spec fn inflow(p: HmmParams, before: Seq<Real>, j: int) -> Seq<Real> {
    Seq::new(N_STATES as nat, |i: int| before[i] * p.transition[i][j])
}

/// The joint densities of the next observation and each state.
pub open spec fn next_row(f: Oracle, p: HmmParams, before: Seq<Real>, obs: Seq<Real>) -> Seq<Real> {
    Seq::new(
        N_STATES as nat,
        |j: int| sum_of_seq(inflow(p, before, j)) * emission_of(f, p, j, obs),
    )
}

/// The forward row at time `t` before scaling.
pub open spec fn forward_raw(f: Oracle, p: HmmParams, obs: Seq<Seq<Real>>, t: nat) -> Seq<Real>
    decreases t,
{
    if t == 0 {
        first_row(f, p, obs[0])
    } else {
        next_row(f, p, normalised(forward_raw(f, p, obs, (t - 1) as nat)), obs[t as int])
    }
}

/// The forward row at time `t`: the probability of each state given the
/// observations so far.
pub open spec fn alpha_at(f: Oracle, p: HmmParams, obs: Seq<Seq<Real>>, t: nat) -> Seq<Real> {
    normalised(forward_raw(f, p, obs, t))
}

/// The log likelihood of the first `n` observations.
pub open spec fn log_likelihood(f: Oracle, p: HmmParams, obs: Seq<Seq<Real>>, n: nat) -> Real
    decreases n,
{
    if n == 0 {
        Real::whole(0)
    } else {
        log_likelihood(f, p, obs, (n - 1) as nat) + ln_of(
            f,
            scale_of(forward_raw(f, p, obs, (n - 1) as nat)),
        )
    }
}

/// Divides a row by its scale.
pub fn normalise(raw: &Vec<Real>) -> (r: Vec<Real>)
    ensures
        r@ == normalised(raw@),
        r@.len() == raw@.len(),
{
    let scale = sum(raw.as_slice()).max(tiny300());
    let mut out: Vec<Real> = Vec::new();
    let mut i: usize = 0;
    while i < raw.len()
        invariant
            i <= raw@.len(),
            scale == scale_of(raw@),
            out@ =~= normalised(raw@).take(i as int),
        decreases raw@.len() - i,
    {
        out.push(raw[i] / scale);
        i += 1;
    }
    assert(out@ =~= normalised(raw@));
    out
}

fn row4(a: Real, b: Real, c: Real, d: Real) -> (r: Vec<Real>)
    ensures
        r@ == seq![a, b, c, d],
{
    let v = vec![a, b, c, d];
    assert(v@ =~= seq![a, b, c, d]);
    v
}

fn row7(a: Real, b: Real, c: Real, d: Real, e: Real, g: Real, h: Real) -> (r: Vec<Real>)
    ensures
        r@ == seq![a, b, c, d, e, g, h],
{
    let v = vec![a, b, c, d, e, g, h];
    assert(v@ =~= seq![a, b, c, d, e, g, h]);
    v
}

/// Hundredths.
pub open spec fn spec_pc(n: i64) -> Real {
    Real::ratio(n, 100)
}

/// Hundredths.
#[verifier::when_used_as_spec(spec_pc)]
pub fn pc(n: i64) -> (r: Real)
    ensures
        r == spec_pc(n),
{
    Real::ratio(n, 100)
}

/// The parameters before training: persistent states with typical observations.
pub open spec fn prior() -> HmmParams {
    let o = Real::whole(0);
    HmmParams {
        pi: seq![Real::ratio(1, 4), Real::ratio(1, 4), Real::ratio(1, 4), Real::ratio(1, 4)],
        transition: seq![
            seq![pc(92), pc(4), pc(3), pc(1)],
            seq![pc(5), pc(89), pc(3), pc(3)],
            seq![pc(6), pc(4), pc(87), pc(3)],
            seq![pc(15), pc(15), pc(8), pc(62)],
        ],
        means: seq![
            seq![
                pc(35),
                pc(30),
                Real::ratio(12, 1000),
                pc(80),
                pc(70),
                Real::ratio(1, 2).neg(),
                pc(60),
            ],
            seq![
                pc(35).neg(),
                pc(30).neg(),
                Real::ratio(18, 1000),
                pc(75),
                pc(60),
                Real::ratio(1, 2),
                pc(50),
            ],
            seq![pc(5), pc(5), Real::ratio(6, 1000), pc(60), pc(30), o, pc(30)],
            seq![o, o, Real::ratio(35, 1000), pc(40), pc(20), Real::whole(1), pc(20)],
        ],
        covariances: seq![
            seq![pc(4), pc(4), Real::ratio(1, 10_000), pc(2), pc(2), pc(25), pc(2)],
            seq![pc(4), pc(4), Real::ratio(2, 10_000), pc(2), pc(2), pc(25), pc(2)],
            seq![pc(1), pc(1), Real::ratio(5, 100_000), pc(4), pc(1), pc(10), pc(1)],
            seq![pc(10), pc(10), Real::ratio(1, 1000), pc(6), pc(1), pc(50), pc(1)],
        ],
    }
}

impl HmmModel {
    /// The parameters.
    pub open spec fn params(&self) -> HmmParams {
        HmmParams {
            pi: self.pi@,
            transition: rows(self.transition@),
            means: rows(self.means@),
            covariances: rows(self.covariances@),
        }
    }

    /// The parameters have the sizes that the states and observations need.
    pub open spec fn wf(&self) -> bool {
        &&& self.pi@.len() == N_STATES
        &&& sized(rows(self.transition@), N_STATES as nat, N_STATES as nat)
        &&& sized(rows(self.means@), N_STATES as nat, self.n_obs as nat)
        &&& sized(rows(self.covariances@), N_STATES as nat, self.n_obs as nat)
    }

    /// A model before training, for observations of seven quantities.
    pub fn new(n_obs: usize) -> (r: Self)
        requires
            n_obs == N_OBS,
        ensures
            r.wf(),
            r.n_obs == n_obs,
            r.params() == prior(),
    {
        let o = Real::whole(0);
        let q = Real::ratio(1, 4);
        let mut transition: Vec<Vec<Real>> = Vec::new();
        transition.push(row4(pc(92), pc(4), pc(3), pc(1)));
        transition.push(row4(pc(5), pc(89), pc(3), pc(3)));
        transition.push(row4(pc(6), pc(4), pc(87), pc(3)));
        transition.push(row4(pc(15), pc(15), pc(8), pc(62)));
        let mut means: Vec<Vec<Real>> = Vec::new();
        means.push(
            row7(
                pc(35),
                pc(30),
                Real::ratio(12, 1000),
                pc(80),
                pc(70),
                Real::ratio(1, 2).neg(),
                pc(60),
            ),
        );
        means.push(
            row7(
                pc(35).neg(),
                pc(30).neg(),
                Real::ratio(18, 1000),
                pc(75),
                pc(60),
                Real::ratio(1, 2),
                pc(50),
            ),
        );
        means.push(row7(pc(5), pc(5), Real::ratio(6, 1000), pc(60), pc(30), o, pc(30)));
        means.push(row7(o, o, Real::ratio(35, 1000), pc(40), pc(20), Real::whole(1), pc(20)));
        let mut covariances: Vec<Vec<Real>> = Vec::new();
        covariances.push(row7(pc(4), pc(4), Real::ratio(1, 10_000), pc(2), pc(2), pc(25), pc(2)));
        covariances.push(row7(pc(4), pc(4), Real::ratio(2, 10_000), pc(2), pc(2), pc(25), pc(2)));
        covariances.push(row7(pc(1), pc(1), Real::ratio(5, 100_000), pc(4), pc(1), pc(10), pc(1)));
        covariances.push(row7(pc(10), pc(10), Real::ratio(1, 1000), pc(6), pc(1), pc(50), pc(1)));
        let r = Self { n_obs, pi: row4(q, q, q, q), transition, means, covariances };
        proof {
            assert(rows(r.transition@) =~= prior().transition);
            assert(rows(r.means@) =~= prior().means);
            assert(rows(r.covariances@) =~= prior().covariances);
            assert(r.pi@ =~= prior().pi);
        }
        r
    }

    /// The log density of an observation in a state.
    pub fn log_emission<M: Fn(Elementary) -> Real>(
        &self,
        state: usize,
        obs: &Vec<Real>,
        math: &M,
    ) -> (r: Real)
        requires
            self.wf(),
            state < N_STATES,
            is_function(*math),
        ensures
            r == log_emission_of(oracle(*math), self.params(), state as int, obs@),
    {
        let ghost p = self.params();
        let n: usize = if self.n_obs <= obs.len() {
            self.n_obs
        } else {
            obs.len()
        };
        assert(p.means[0].len() == self.n_obs);
        assert(p.means[state as int].len() == self.n_obs);
        assert(p.covariances[state as int].len() == self.n_obs);
        let mut log_p = Real::whole(0);
        let mut k: usize = 0;
        while k < n
            invariant
                is_function(*math),
                self.wf(),
                state < N_STATES,
                p == self.params(),
                k <= n,
                n <= self.n_obs,
                n <= obs@.len(),
                p.means[state as int].len() == self.n_obs,
                p.covariances[state as int].len() == self.n_obs,
                log_p == log_density_of(oracle(*math), p, state as int, obs@, k as nat),
            decreases n - k,
        {
            let mu = self.means[state][k];
            let var = self.covariances[state][k];
            let diff = obs[k] - mu;
            log_p = log_p + Real::ratio(1, 2).neg() * (diff * diff / var + ln(math, var) + ln(
                math,
                Real::whole(2) * pi(),
            ));
            k += 1;
        }
        log_p
    }

    /// The density of an observation in a state, kept positive.
    pub fn emission<M: Fn(Elementary) -> Real>(
        &self,
        state: usize,
        obs: &Vec<Real>,
        math: &M,
    ) -> (r: Real)
        requires
            self.wf(),
            state < N_STATES,
            is_function(*math),
        ensures
            r == emission_of(oracle(*math), self.params(), state as int, obs@),
    {
        exp(math, self.log_emission(state, obs, math)).max(tiny300())
    }

    fn first_step<M: Fn(Elementary) -> Real>(&self, obs: &Vec<Real>, math: &M) -> (r: Vec<Real>)
        requires
            self.wf(),
            is_function(*math),
        ensures
            r@ == first_row(oracle(*math), self.params(), obs@),
    {
        let ghost goal = first_row(oracle(*math), self.params(), obs@);
        let mut out: Vec<Real> = Vec::new();
        let mut i: usize = 0;
        while i < N_STATES
            invariant
                self.wf(),
                is_function(*math),
                i <= N_STATES,
                goal == first_row(oracle(*math), self.params(), obs@),
                out@ =~= goal.take(i as int),
            decreases N_STATES - i,
        {
            out.push(self.pi[i] * self.emission(i, obs, math));
            i += 1;
        }
        assert(out@ =~= goal);
        out
    }

    fn next_step<M: Fn(Elementary) -> Real>(
        &self,
        before: &Vec<Real>,
        obs: &Vec<Real>,
        math: &M,
    ) -> (r: Vec<Real>)
        requires
            self.wf(),
            before@.len() == N_STATES,
            is_function(*math),
        ensures
            r@ == next_row(oracle(*math), self.params(), before@, obs@),
    {
        let ghost p = self.params();
        let ghost goal = next_row(oracle(*math), p, before@, obs@);
        let mut out: Vec<Real> = Vec::new();
        let mut j: usize = 0;
        while j < N_STATES
            invariant
                self.wf(),
                p == self.params(),
                is_function(*math),
                before@.len() == N_STATES,
                j <= N_STATES,
                goal == next_row(oracle(*math), p, before@, obs@),
                out@ =~= goal.take(j as int),
            decreases N_STATES - j,
        {
            let mut terms: Vec<Real> = Vec::new();
            let mut i: usize = 0;
            while i < N_STATES
                invariant
                    self.wf(),
                    p == self.params(),
                    before@.len() == N_STATES,
                    i <= N_STATES,
                    j < N_STATES,
                    terms@ =~= inflow(p, before@, j as int).take(i as int),
                decreases N_STATES - i,
            {
                assert(p.transition[i as int].len() == N_STATES);
                terms.push(before[i] * self.transition[i][j]);
                i += 1;
            }
            assert(terms@ =~= inflow(p, before@, j as int));
            out.push(sum(terms.as_slice()) * self.emission(j, obs, math));
            j += 1;
        }
        assert(out@ =~= goal);
        out
    }

    /// The forward rows and the log likelihood of the observations.
    pub fn forward<M: Fn(Elementary) -> Real>(&self, observations: &Vec<Vec<Real>>, math: &M) -> (r:
        (Vec<Vec<Real>>, Real))
        requires
            self.wf(),
            observations@.len() > 0,
            is_function(*math),
        ensures
            r.0@.len() == observations@.len(),
            forall|t: int|
                0 <= t < observations@.len() ==> (#[trigger] r.0@[t])@ == alpha_at(
                    oracle(*math),
                    self.params(),
                    rows(observations@),
                    t as nat,
                ),
            r.1 == log_likelihood(
                oracle(*math),
                self.params(),
                rows(observations@),
                observations@.len(),
            ),
    {
        let ghost f = oracle(*math);
        let ghost p = self.params();
        let ghost obs = rows(observations@);
        let mut alpha: Vec<Vec<Real>> = Vec::new();
        let mut log_scale = Real::whole(0);
        let mut t: usize = 0;
        while t < observations.len()
            invariant
                self.wf(),
                is_function(*math),
                f == oracle(*math),
                p == self.params(),
                obs == rows(observations@),
                t <= observations@.len(),
                alpha@.len() == t,
                forall|s: int|
                    0 <= s < t ==> (#[trigger] alpha@[s])@ == alpha_at(f, p, obs, s as nat)
                        && alpha@[s]@.len() == N_STATES,
                log_scale == log_likelihood(f, p, obs, t as nat),
            decreases observations@.len() - t,
        {
            assert(obs[t as int] == observations@[t as int]@);
            let raw = if t == 0 {
                self.first_step(&observations[t], math)
            } else {
                self.next_step(&alpha[t - 1], &observations[t], math)
            };
            assert(raw@ == forward_raw(f, p, obs, t as nat));
            let scale = sum(raw.as_slice()).max(tiny300());
            let row = normalise(&raw);
            alpha.push(row);
            log_scale = log_scale + ln(math, scale);
            t += 1;
        }
        (alpha, log_scale)
    }

    /// The probability of each state after the last observation, and the most
    /// probable regime.
    pub fn filter_last<M: Fn(Elementary) -> Real>(
        &self,
        observations: &Vec<Vec<Real>>,
        math: &M,
    ) -> (r: RegimeState)
        requires
            self.wf(),
            observations@.len() > 0,
            is_function(*math),
        ensures
            ({
                let last = alpha_at(
                    oracle(*math),
                    self.params(),
                    rows(observations@),
                    (observations@.len() - 1) as nat,
                );
                let post = normalised(last);
                &&& r.posterior@ == post
                &&& r.regime == Regime::of(last_max(post))
                &&& r.probability == post[last_max(post)]
            }),
    {
        let (alpha, _) = self.forward(observations, math);
        let posterior = normalise(&alpha[alpha.len() - 1]);
        let best: usize = argmax(posterior.as_slice());
        RegimeState { regime: Regime::from_index(best), probability: posterior[best], posterior }
    }
}

} // verus!
