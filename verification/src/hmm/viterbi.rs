//! Viterbi decoding.
use vstd::prelude::*;

use crate::hmm::model::{log_emission_of, rows, HmmModel, HmmParams, N_STATES};
use crate::num::elementary::{is_function, ln, ln_of, oracle, Elementary, Oracle};
use crate::num::order::lemma_add_monotone;
use crate::num::series::{all_numbers, argmax, last_max, lemma_last_max};
use crate::num::Real;

verus! {

/// The scores of coming to state `j` from each state.
pub open spec fn arrivals(f: Oracle, p: HmmParams, before: Seq<Real>, j: int) -> Seq<Real> {
    Seq::new(N_STATES as nat, |i: int| before[i] + ln_of(f, p.transition[i][j]))
}

/// The score of the best path to each state at time `t`.
pub open spec fn scores_at(f: Oracle, p: HmmParams, obs: Seq<Seq<Real>>, t: nat) -> Seq<Real>
    decreases t,
{
    if t == 0 {
        Seq::new(
            N_STATES as nat,
            |i: int| ln_of(f, p.pi[i]) + log_emission_of(f, p, i, obs[0]),
        )
    } else {
        let before = scores_at(f, p, obs, (t - 1) as nat);
        Seq::new(
            N_STATES as nat,
            |j: int|
                {
                    let c = arrivals(f, p, before, j);
                    c[last_max(c)] + log_emission_of(f, p, j, obs[t as int])
                },
        )
    }
}

/// The state before state `j` at time `t` on the best path there.
pub open spec fn came_from(f: Oracle, p: HmmParams, obs: Seq<Seq<Real>>, t: nat, j: int) -> int {
    last_max(arrivals(f, p, scores_at(f, p, obs, (t - 1) as nat), j))
}

/// The state at time `t` on the best path.
pub open spec fn path_at(f: Oracle, p: HmmParams, obs: Seq<Seq<Real>>, t: int) -> int
    decreases obs.len() - t,
{
    if t >= obs.len() - 1 {
        last_max(scores_at(f, p, obs, (obs.len() - 1) as nat))
    } else {
        came_from(f, p, obs, (t + 1) as nat, path_at(f, p, obs, t + 1))
    }
}

/// The score of a path up to time `t`: the log probabilities of its states and
/// observations, added in the order of time.
pub open spec fn path_score(
    f: Oracle,
    p: HmmParams,
    obs: Seq<Seq<Real>>,
    path: Seq<int>,
    t: nat,
) -> Real
    decreases t,
{
    let s = path[t as int];
    if t == 0 {
        ln_of(f, p.pi[s]) + log_emission_of(f, p, s, obs[0])
    } else {
        path_score(f, p, obs, path, (t - 1) as nat) + ln_of(f, p.transition[path[t - 1]][s])
            + log_emission_of(f, p, s, obs[t as int])
    }
}

/// The best path.
pub open spec fn best_path(f: Oracle, p: HmmParams, obs: Seq<Seq<Real>>) -> Seq<int> {
    Seq::new(obs.len(), |t: int| path_at(f, p, obs, t))
}

/// Every score that the search compares is a number.
pub open spec fn scores_are_numbers(f: Oracle, p: HmmParams, obs: Seq<Seq<Real>>) -> bool {
    &&& forall|t: nat| t < obs.len() ==> all_numbers(#[trigger] scores_at(f, p, obs, t))
    &&& forall|t: nat, j: int|
        t + 1 < obs.len() && 0 <= j < N_STATES ==> all_numbers(
            #[trigger] arrivals(f, p, scores_at(f, p, obs, t), j),
        )
}

/// Every partial score of a path is a number.
pub open spec fn path_is_number(
    f: Oracle,
    p: HmmParams,
    obs: Seq<Seq<Real>>,
    path: Seq<int>,
) -> bool {
    &&& forall|t: nat| t < obs.len() ==> !(#[trigger] path_score(f, p, obs, path, t)).nan()
    &&& forall|t: nat|
        t + 1 < obs.len() ==> !(#[trigger] path_score(f, p, obs, path, t) + ln_of(
            f,
            p.transition[path[t as int]][path[(t + 1) as int]],
        )).nan()
}

/// No path to its state scores higher than the best one there.
proof fn lemma_scores_bound(
    f: Oracle,
    p: HmmParams,
    obs: Seq<Seq<Real>>,
    path: Seq<int>,
    t: nat,
)
    requires
        t < obs.len(),
        path.len() == obs.len(),
        forall|i: int| 0 <= i < path.len() ==> 0 <= #[trigger] path[i] < N_STATES,
        scores_are_numbers(f, p, obs),
        path_is_number(f, p, obs, path),
    ensures
        path_score(f, p, obs, path, t) <= scores_at(f, p, obs, t)[path[t as int]],
    decreases t,
{
    let s = path[t as int];
    assert(all_numbers(scores_at(f, p, obs, t)));
    assert(!scores_at(f, p, obs, t)[s].nan());
    assert(!path_score(f, p, obs, path, t).nan());
    if t > 0 {
        let m = (t - 1) as nat;
        lemma_scores_bound(f, p, obs, path, m);
        let before = scores_at(f, p, obs, m);
        let c = arrivals(f, p, before, s);
        let q = path[m as int];
        assert(0 <= path[m as int] < N_STATES);
        let step = ln_of(f, p.transition[q][s]);
        assert(all_numbers(arrivals(f, p, scores_at(f, p, obs, m), s)));
        lemma_last_max(c);
        assert(!c[q].nan());
        assert(!(path_score(f, p, obs, path, m) + ln_of(
            f,
            p.transition[path[m as int]][path[(m + 1) as int]],
        )).nan());
        lemma_add_monotone(path_score(f, p, obs, path, m), before[q], step);
        let e = log_emission_of(f, p, s, obs[t as int]);
        assert(c[q] <= c[last_max(c)]);
        lemma_add_monotone(path_score(f, p, obs, path, m) + step, c[last_max(c)], e);
    }
}

proof fn lemma_path_states(f: Oracle, p: HmmParams, obs: Seq<Seq<Real>>, t: int)
    requires
        0 <= t < obs.len(),
        scores_are_numbers(f, p, obs),
    ensures
        0 <= path_at(f, p, obs, t) < N_STATES,
    decreases obs.len() - t,
{
    if t >= obs.len() - 1 {
        assert(all_numbers(scores_at(f, p, obs, t as nat)));
        lemma_last_max(scores_at(f, p, obs, t as nat));
    } else {
        lemma_path_states(f, p, obs, t + 1);
        let j = path_at(f, p, obs, t + 1);
        let c = arrivals(f, p, scores_at(f, p, obs, (t + 1 - 1) as nat), j);
        assert(all_numbers(c));
        lemma_last_max(c);
    }
}

/// The best path's score is the best score at its state.
proof fn lemma_path_score(f: Oracle, p: HmmParams, obs: Seq<Seq<Real>>, t: nat)
    requires
        t < obs.len(),
        scores_are_numbers(f, p, obs),
    ensures
        path_score(f, p, obs, best_path(f, p, obs), t) == scores_at(f, p, obs, t)[path_at(
            f,
            p,
            obs,
            t as int,
        )],
    decreases t,
{
    lemma_path_states(f, p, obs, t as int);
    if t > 0 {
        let m = (t - 1) as nat;
        lemma_path_score(f, p, obs, m);
        lemma_path_states(f, p, obs, m as int);
        assert(path_at(f, p, obs, m as int) == came_from(
            f,
            p,
            obs,
            t,
            path_at(f, p, obs, t as int),
        ));
    }
}

/// Decoding finds a most likely sequence of states: no path scores higher than
/// the one decoded, as long as the scores are numbers.
pub proof fn decoded_path_is_most_likely(
    f: Oracle,
    p: HmmParams,
    obs: Seq<Seq<Real>>,
    path: Seq<int>,
)
    requires
        obs.len() > 0,
        path.len() == obs.len(),
        forall|i: int| 0 <= i < path.len() ==> 0 <= #[trigger] path[i] < N_STATES,
        scores_are_numbers(f, p, obs),
        path_is_number(f, p, obs, path),
    ensures
        path_score(f, p, obs, path, (obs.len() - 1) as nat) <= path_score(
            f,
            p,
            obs,
            best_path(f, p, obs),
            (obs.len() - 1) as nat,
        ),
{
    let t = (obs.len() - 1) as nat;
    lemma_scores_bound(f, p, obs, path, t);
    lemma_path_score(f, p, obs, t);
    let s = scores_at(f, p, obs, t);
    assert(all_numbers(scores_at(f, p, obs, t)));
    lemma_last_max(s);
    assert(0 <= path[t as int] < N_STATES);
    assert(s[path[t as int]] <= s[last_max(s)]);
}

impl HmmModel {
    fn initial_scores<M: Fn(Elementary) -> Real>(&self, obs: &Vec<Real>, math: &M) -> (r: Vec<Real>)
        requires
            self.wf(),
            is_function(*math),
        ensures
            r@ == Seq::new(
                N_STATES as nat,
                |i: int|
                    ln_of(oracle(*math), self.params().pi[i]) + log_emission_of(
                        oracle(*math),
                        self.params(),
                        i,
                        obs@,
                    ),
            ),
    {
        let ghost f = oracle(*math);
        let ghost p = self.params();
        let mut out: Vec<Real> = Vec::new();
        let mut i: usize = 0;
        while i < N_STATES
            invariant
                self.wf(),
                is_function(*math),
                f == oracle(*math),
                p == self.params(),
                i <= N_STATES,
                out@.len() == i,
                forall|k: int|
                    0 <= k < i ==> #[trigger] out@[k] == ln_of(f, p.pi[k]) + log_emission_of(
                        f,
                        p,
                        k,
                        obs@,
                    ),
            decreases N_STATES - i,
        {
            out.push(ln(math, self.pi[i]) + self.log_emission(i, obs, math));
            i += 1;
        }
        assert(out@ =~= Seq::new(
            N_STATES as nat,
            |i: int| ln_of(f, p.pi[i]) + log_emission_of(f, p, i, obs@),
        ));
        out
    }

    /// The most likely sequence of states for the observations.
    pub fn viterbi<M: Fn(Elementary) -> Real>(&self, observations: &Vec<Vec<Real>>, math: &M) -> (r:
        Vec<usize>)
        requires
            self.wf(),
            is_function(*math),
        ensures
            r@.len() == observations@.len(),
            forall|t: int|
                0 <= t < r@.len() ==> #[trigger] r@[t] == path_at(
                    oracle(*math),
                    self.params(),
                    rows(observations@),
                    t,
                ),
    {
        let ghost f = oracle(*math);
        let ghost p = self.params();
        let ghost obs = rows(observations@);
        let len: usize = observations.len();
        let mut path: Vec<usize> = Vec::new();
        if len == 0 {
            return path;
        }
        assert(obs[0] == observations@[0]@);
        let mut scores = self.initial_scores(&observations[0], math);
        assert(scores@ =~= scores_at(f, p, obs, 0));
        let mut back: Vec<Vec<usize>> = Vec::new();
        let mut t: usize = 1;
        while t < len
            invariant
                self.wf(),
                is_function(*math),
                f == oracle(*math),
                p == self.params(),
                obs == rows(observations@),
                len == observations@.len(),
                1 <= t <= len,
                scores@ == scores_at(f, p, obs, (t - 1) as nat),
                scores@.len() == N_STATES,
                back@.len() == t - 1,
                forall|s: int|
                    0 <= s < t - 1 ==> (#[trigger] back@[s])@.len() == N_STATES,
                forall|s: int, j: int|
                    0 <= s < t - 1 && 0 <= j < N_STATES ==> #[trigger] back@[s]@[j] == came_from(
                        f,
                        p,
                        obs,
                        (s + 1) as nat,
                        j,
                    ) && back@[s]@[j] < N_STATES,
            decreases len - t,
        {
            assert(obs[t as int] == observations@[t as int]@);
            let ghost goal = scores_at(f, p, obs, t as nat);
            let mut next: Vec<Real> = Vec::new();
            let mut from: Vec<usize> = Vec::new();
            let mut j: usize = 0;
            while j < N_STATES
                invariant
                    self.wf(),
                    is_function(*math),
                    f == oracle(*math),
                    p == self.params(),
                    1 <= t < len,
                    len == observations@.len(),
                    obs[t as int] == observations@[t as int]@,
                    scores@ == scores_at(f, p, obs, (t - 1) as nat),
                    scores@.len() == N_STATES,
                    j <= N_STATES,
                    goal == scores_at(f, p, obs, t as nat),
                    next@ =~= goal.take(j as int),
                    from@.len() == j,
                    forall|k: int|
                        0 <= k < j ==> #[trigger] from@[k] == came_from(f, p, obs, t as nat, k)
                            && from@[k] < N_STATES,
                decreases N_STATES - j,
            {
                let ghost c = arrivals(f, p, scores@, j as int);
                let mut cands: Vec<Real> = Vec::new();
                let mut i: usize = 0;
                while i < N_STATES
                    invariant
                        self.wf(),
                        is_function(*math),
                        f == oracle(*math),
                        p == self.params(),
                        j < N_STATES,
                        i <= N_STATES,
                        scores@.len() == N_STATES,
                        c == arrivals(f, p, scores@, j as int),
                        cands@ =~= c.take(i as int),
                    decreases N_STATES - i,
                {
                    assert(p.transition[i as int].len() == N_STATES);
                    cands.push(scores[i] + ln(math, self.transition[i][j]));
                    i += 1;
                }
                assert(cands@ =~= c);
                let best: usize = argmax(cands.as_slice());
                next.push(cands[best] + self.log_emission(j, &observations[t], math));
                from.push(best);
                j += 1;
            }
            assert(next@ =~= goal);
            scores = next;
            let ghost before = back@;
            back.push(from);
            assert forall|s: int, j: int| 0 <= s < t && 0 <= j < N_STATES implies #[trigger] back@[s]@[j]
                == came_from(f, p, obs, (s + 1) as nat, j) && back@[s]@[j] < N_STATES by {
                if s < t - 1 {
                    assert(back@[s] == before[s]);
                    assert(before[s]@[j] == came_from(f, p, obs, (s + 1) as nat, j));
                } else {
                    assert(back@[s] == from);
                    assert(from@[j] == came_from(f, p, obs, t as nat, j));
                }
            }
            t += 1;
        }
        let last: usize = argmax(scores.as_slice());
        let mut rev: Vec<usize> = Vec::new();
        rev.push(last);
        let mut s: usize = 1;
        while s < len
            invariant
                len == obs.len(),
                1 <= s <= len,
                rev@.len() == s,
                back@.len() == len - 1,
                forall|s: int|
                    0 <= s < len - 1 ==> (#[trigger] back@[s])@.len() == N_STATES,
                forall|s: int, j: int|
                    0 <= s < len - 1 && 0 <= j < N_STATES ==> #[trigger] back@[s]@[j] == came_from(
                        f,
                        p,
                        obs,
                        (s + 1) as nat,
                        j,
                    ) && back@[s]@[j] < N_STATES,
                forall|k: int|
                    0 <= k < s ==> #[trigger] rev@[k] == path_at(f, p, obs, len - 1 - k) && rev@[k]
                        < N_STATES,
            decreases len - s,
        {
            let after: usize = rev[s - 1];
            let at: usize = len - 1 - s;
            assert(rev@[s - 1] == path_at(f, p, obs, len - 1 - (s - 1)));
            assert(back@[at as int]@[after as int] == came_from(
                f,
                p,
                obs,
                (at + 1) as nat,
                after as int,
            ));
            rev.push(back[at][after]);
            s += 1;
        }
        let mut k: usize = 0;
        while k < len
            invariant
                k <= len,
                len == obs.len(),
                rev@.len() == len,
                forall|k: int| 0 <= k < len ==> #[trigger] rev@[k] == path_at(f, p, obs, len - 1 - k),
                path@.len() == k,
                forall|i: int| 0 <= i < k ==> #[trigger] path@[i] == path_at(f, p, obs, i),
            decreases len - k,
        {
            assert(rev@[len - 1 - k] == path_at(f, p, obs, len - 1 - (len - 1 - k)));
            path.push(rev[len - 1 - k]);
            k += 1;
        }
        path
    }
}

} // verus!
