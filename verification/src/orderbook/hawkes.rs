//! Bivariate Hawkes process for order arrivals.
//!
//! The intensity of buys is a background rate plus the excitations of earlier
//! buys and sells, each decaying exponentially; likewise for sells. The seven
//! parameters are fitted by gradient ascent on the log likelihood.
use vstd::prelude::*;

use crate::num::constants::minus_infinity;
use crate::num::elementary::{exp, exp_of, is_function, ln, ln_of, oracle, Elementary, Oracle};
use crate::num::series::{stable_order, stable_order_of, sum, sum_of_seq};
use crate::num::Real;

verus! {

/// The parameters of the process.
#[derive(Debug, Clone, Copy)]
pub struct HawkesParams {
    pub mu_buy: Real,
    pub mu_sell: Real,
    pub alpha_bb: Real,
    pub alpha_ss: Real,
    pub alpha_bs: Real,
    pub alpha_sb: Real,
    pub beta: Real,
}

/// A fitted process.
#[derive(Debug, Clone, Copy)]
pub struct HawkesProcess {
    pub mu_buy: Real,
    pub mu_sell: Real,
    /// Excitation of buys by buys.
    pub alpha_bb: Real,
    /// Excitation of sells by sells.
    pub alpha_ss: Real,
    /// Excitation of sells by buys.
    pub alpha_bs: Real,
    /// Excitation of buys by sells.
    pub alpha_sb: Real,
    pub beta: Real,
    pub log_likelihood: Real,
}

/// Why there is no fit: fewer than ten events on a side.
#[derive(Debug, Clone, Copy, PartialEq, Eq, Structural)]
pub struct TooFewEvents {
    pub buy: usize,
    pub sell: usize,
}

impl HawkesParams {
    /// No rate or excitation is out of its range.
    pub open spec fn valid(&self) -> bool {
        let o = Real::whole(0);
        !(self.mu_buy <= o || self.mu_sell <= o || self.alpha_bb < o || self.alpha_ss < o
            || self.alpha_bs < o || self.alpha_sb < o || self.beta <= o)
    }

    fn is_valid(&self) -> (r: bool)
        ensures
            r == self.valid(),
    {
        let o = Real::whole(0);
        !(self.mu_buy <= o || self.mu_sell <= o || self.alpha_bb < o || self.alpha_ss < o
            || self.alpha_bs < o || self.alpha_sb < o || self.beta <= o)
    }

    /// The parameters with parameter `i` moved by `d`.
    pub open spec fn moved(self, i: int, d: Real) -> HawkesParams {
        HawkesParams {
            mu_buy: if i == 0 {
                self.mu_buy + d
            } else {
                self.mu_buy
            },
            mu_sell: if i == 1 {
                self.mu_sell + d
            } else {
                self.mu_sell
            },
            alpha_bb: if i == 2 {
                self.alpha_bb + d
            } else {
                self.alpha_bb
            },
            alpha_ss: if i == 3 {
                self.alpha_ss + d
            } else {
                self.alpha_ss
            },
            alpha_bs: if i == 4 {
                self.alpha_bs + d
            } else {
                self.alpha_bs
            },
            alpha_sb: if i == 5 {
                self.alpha_sb + d
            } else {
                self.alpha_sb
            },
            beta: if i == 6 {
                self.beta + d
            } else {
                self.beta
            },
        }
    }

    fn shifted(self, i: usize, d: Real) -> (r: HawkesParams)
        ensures
            r == self.moved(i as int, d),
    {
        let mut p = self;
        match i {
            0 => {
                p.mu_buy = p.mu_buy + d;
            },
            1 => {
                p.mu_sell = p.mu_sell + d;
            },
            2 => {
                p.alpha_bb = p.alpha_bb + d;
            },
            3 => {
                p.alpha_ss = p.alpha_ss + d;
            },
            4 => {
                p.alpha_bs = p.alpha_bs + d;
            },
            5 => {
                p.alpha_sb = p.alpha_sb + d;
            },
            6 => {
                p.beta = p.beta + d;
            },
            _ => {},
        }
        p
    }
}

/// Arrival times in seconds.
pub open spec fn seconds(times: Seq<u64>) -> Seq<Real> {
    times.map_values(|t: u64| Real::stamp(t) / Real::whole(1000))
}

/// The last element, or zero.
pub open spec fn last_or_zero(s: Seq<Real>) -> Real {
    if s.len() == 0 {
        Real::whole(0)
    } else {
        s.last()
    }
}

/// All events: buys, then sells.
pub struct Events {
    pub times: Seq<Real>,
    /// How many of them are buys.
    pub buys: int,
    /// The places of the events by time; at equal times buys come first.
    pub order: Seq<usize>,
}

/// The events of two sides.
pub open spec fn events_of(t_buy: Seq<Real>, t_sell: Seq<Real>) -> Events {
    let times = t_buy + t_sell;
    Events { times, buys: t_buy.len() as int, order: stable_order_of(times, times.len()) }
}

/// Log likelihood and decayed sums of buys and sells.
pub struct Progress {
    pub ll: Real,
    pub r_buy: Real,
    pub r_sell: Real,
}

/// The log intensities and decayed sums after the first `n` events; nothing once
/// an intensity is not positive.
pub open spec fn progress(f: Oracle, ev: Events, p: HawkesParams, n: nat) -> Option<Progress>
    decreases n,
{
    if n == 0 {
        Some(Progress { ll: Real::whole(0), r_buy: Real::whole(0), r_sell: Real::whole(0) })
    } else {
        match progress(f, ev, p, (n - 1) as nat) {
            None => None,
            Some(s) => {
                let at = ev.order[n - 1] as int;
                let is_buy = at < ev.buys;
                let before = if n == 1 {
                    Real::whole(0)
                } else {
                    ev.times[ev.order[n - 2] as int]
                };
                let decay = exp_of(f, p.beta.neg() * (ev.times[at] - before));
                let r_buy = s.r_buy * decay;
                let r_sell = s.r_sell * decay;
                let lambda = if is_buy {
                    p.mu_buy + p.alpha_bb * r_buy + p.alpha_sb * r_sell
                } else {
                    p.mu_sell + p.alpha_ss * r_sell + p.alpha_bs * r_buy
                };
                if lambda <= Real::whole(0) {
                    None
                } else {
                    Some(
                        Progress {
                            ll: s.ll + ln_of(f, lambda),
                            r_buy: if is_buy {
                                r_buy + Real::whole(1)
                            } else {
                                r_buy
                            },
                            r_sell: if is_buy {
                                r_sell
                            } else {
                                r_sell + Real::whole(1)
                            },
                        },
                    )
                }
            },
        }
    }
}

/// How much of each event's excitation falls into the observed time.
pub open spec fn decayed(f: Oracle, times: Seq<Real>, beta: Real, t_end: Real) -> Seq<Real> {
    times.map_values(|t: Real| Real::whole(1) - exp_of(f, beta.neg() * (t_end - t)))
}

/// The log likelihood of the arrivals; minus infinity for parameters out of
/// range.
pub open spec fn likelihood(
    f: Oracle,
    t_buy: Seq<Real>,
    t_sell: Seq<Real>,
    t_end: Real,
    p: HawkesParams,
) -> Real {
    let ev = events_of(t_buy, t_sell);
    if !p.valid() {
        minus_infinity()
    } else {
        match progress(f, ev, p, ev.times.len()) {
            None => minus_infinity(),
            Some(s) => {
                let b = sum_of_seq(decayed(f, t_buy, p.beta, t_end));
                let a = sum_of_seq(decayed(f, t_sell, p.beta, t_end));
                let integral_buy = p.mu_buy * t_end + (p.alpha_bb / p.beta) * b + (p.alpha_sb
                    / p.beta) * a;
                let integral_sell = p.mu_sell * t_end + (p.alpha_ss / p.beta) * a + (p.alpha_bs
                    / p.beta) * b;
                s.ll - integral_buy - integral_sell
            },
        }
    }
}

/// The central difference of the log likelihood along parameter `i`.
pub open spec fn gradient(
    f: Oracle,
    t_buy: Seq<Real>,
    t_sell: Seq<Real>,
    t_end: Real,
    p: HawkesParams,
    i: int,
) -> Real {
    let eps = Real::ratio(1, 1_000_000);
    (likelihood(f, t_buy, t_sell, t_end, p.moved(i, eps)) - likelihood(
        f,
        t_buy,
        t_sell,
        t_end,
        p.moved(i, eps.neg()),
    )) / (Real::whole(2) * eps)
}

/// One step of gradient ascent within the parameters' ranges.
pub open spec fn ascended(
    f: Oracle,
    t_buy: Seq<Real>,
    t_sell: Seq<Real>,
    t_end: Real,
    p: HawkesParams,
) -> HawkesParams {
    let lr = Real::ratio(1, 100_000);
    let o = Real::whole(0);
    let least = Real::ratio(1, 100_000_000);
    HawkesParams {
        mu_buy: (p.mu_buy + lr * gradient(f, t_buy, t_sell, t_end, p, 0)).max(least),
        mu_sell: (p.mu_sell + lr * gradient(f, t_buy, t_sell, t_end, p, 1)).max(least),
        alpha_bb: (p.alpha_bb + lr * gradient(f, t_buy, t_sell, t_end, p, 2)).max(o),
        alpha_ss: (p.alpha_ss + lr * gradient(f, t_buy, t_sell, t_end, p, 3)).max(o),
        alpha_bs: (p.alpha_bs + lr * gradient(f, t_buy, t_sell, t_end, p, 4)).max(o),
        alpha_sb: (p.alpha_sb + lr * gradient(f, t_buy, t_sell, t_end, p, 5)).max(o),
        beta: (p.beta + lr * gradient(f, t_buy, t_sell, t_end, p, 6)).max(Real::ratio(1, 100)),
    }
}

/// A state of the ascent: where it is, and the best so far.
#[derive(Debug, Clone, Copy)]
pub struct Ascent {
    pub at: HawkesParams,
    pub best_ll: Real,
    pub best: HawkesParams,
}

/// The ascent after `n` steps.
pub open spec fn ascent(
    f: Oracle,
    t_buy: Seq<Real>,
    t_sell: Seq<Real>,
    t_end: Real,
    start: HawkesParams,
    n: nat,
) -> Ascent
    decreases n,
{
    if n == 0 {
        Ascent { at: start, best_ll: minus_infinity(), best: start }
    } else {
        let s = ascent(f, t_buy, t_sell, t_end, start, (n - 1) as nat);
        let ll = likelihood(f, t_buy, t_sell, t_end, s.at);
        Ascent {
            at: ascended(f, t_buy, t_sell, t_end, s.at),
            best_ll: if ll > s.best_ll {
                ll
            } else {
                s.best_ll
            },
            best: if ll > s.best_ll {
                s.at
            } else {
                s.best
            },
        }
    }
}

/// Where the ascent starts: background rates only, with mild excitation.
pub open spec fn initial_params(n_buy: nat, n_sell: nat, t_end: Real) -> HawkesParams {
    HawkesParams {
        mu_buy: Real::count(n_buy as usize) / t_end.max(Real::whole(1)),
        mu_sell: Real::count(n_sell as usize) / t_end.max(Real::whole(1)),
        alpha_bb: Real::ratio(3, 10),
        alpha_ss: Real::ratio(3, 10),
        alpha_bs: Real::ratio(1, 10),
        alpha_sb: Real::ratio(1, 10),
        beta: Real::whole(1),
    }
}

/// Number of steps of the ascent.
pub const STEPS: usize = 3000;

/// The process fitted to arrival times.
pub open spec fn fitted(f: Oracle, buy_times: Seq<u64>, sell_times: Seq<u64>) -> HawkesProcess {
    let t_buy = seconds(buy_times);
    let t_sell = seconds(sell_times);
    let t_end = last_or_zero(t_buy).max(last_or_zero(t_sell));
    let start = initial_params(t_buy.len(), t_sell.len(), t_end);
    let s = ascent(f, t_buy, t_sell, t_end, start, STEPS as nat);
    HawkesProcess {
        mu_buy: s.best.mu_buy,
        mu_sell: s.best.mu_sell,
        alpha_bb: s.best.alpha_bb,
        alpha_ss: s.best.alpha_ss,
        alpha_bs: s.best.alpha_bs,
        alpha_sb: s.best.alpha_sb,
        beta: s.best.beta,
        log_likelihood: s.best_ll,
    }
}

fn to_seconds(times: &[u64]) -> (r: Vec<Real>)
    ensures
        r@ == seconds(times@),
{
    let mut out: Vec<Real> = Vec::new();
    let mut i: usize = 0;
    while i < times.len()
        invariant
            i <= times@.len(),
            out@ =~= seconds(times@).take(i as int),
        decreases times@.len() - i,
    {
        out.push(Real::stamp(times[i]) / Real::whole(1000));
        i += 1;
    }
    assert(out@ =~= seconds(times@));
    out
}

fn decayed_sum<M: Fn(Elementary) -> Real>(
    times: &Vec<Real>,
    beta: Real,
    t_end: Real,
    math: &M,
) -> (r: Real)
    requires
        is_function(*math),
    ensures
        r == sum_of_seq(decayed(oracle(*math), times@, beta, t_end)),
{
    let mut out: Vec<Real> = Vec::new();
    let ghost all = decayed(oracle(*math), times@, beta, t_end);
    let mut i: usize = 0;
    while i < times.len()
        invariant
            is_function(*math),
            i <= times@.len(),
            all == decayed(oracle(*math), times@, beta, t_end),
            out@ =~= all.take(i as int),
        decreases times@.len() - i,
    {
        out.push(Real::whole(1) - exp(math, beta.neg() * (t_end - times[i])));
        i += 1;
    }
    assert(out@ =~= all);
    sum(out.as_slice())
}

/// The arrivals on both sides, merged by time.
#[derive(Debug)]
struct Arrivals {
    t_buy: Vec<Real>,
    t_sell: Vec<Real>,
    times: Vec<Real>,
    order: Vec<usize>,
    t_end: Real,
}

impl Arrivals {
    spec fn wf(&self) -> bool {
        &&& self.times@ == events_of(self.t_buy@, self.t_sell@).times
        &&& self.order@ == events_of(self.t_buy@, self.t_sell@).order
        &&& self.order@.len() == self.times@.len()
        &&& forall|i: int|
            0 <= i < self.order@.len() ==> (#[trigger] self.order@[i]) < self.times@.len()
    }

    fn new(t_buy: Vec<Real>, t_sell: Vec<Real>, t_end: Real) -> (r: Arrivals)
        ensures
            r.wf(),
            r.t_buy == t_buy,
            r.t_sell == t_sell,
            r.t_end == t_end,
    {
        let mut times: Vec<Real> = Vec::new();
        let mut i: usize = 0;
        while i < t_buy.len()
            invariant
                i <= t_buy@.len(),
                times@ =~= t_buy@.take(i as int),
            decreases t_buy@.len() - i,
        {
            times.push(t_buy[i]);
            i += 1;
        }
        let mut j: usize = 0;
        while j < t_sell.len()
            invariant
                j <= t_sell@.len(),
                times@ =~= t_buy@ + t_sell@.take(j as int),
            decreases t_sell@.len() - j,
        {
            times.push(t_sell[j]);
            j += 1;
        }
        assert(times@ =~= t_buy@ + t_sell@);
        let order = stable_order(times.as_slice());
        Arrivals { t_buy, t_sell, times, order, t_end }
    }

    fn hawkes_ll<M: Fn(Elementary) -> Real>(&self, p: &HawkesParams, math: &M) -> (r: Real)
        requires
            self.wf(),
            is_function(*math),
        ensures
            r == likelihood(oracle(*math), self.t_buy@, self.t_sell@, self.t_end, *p),
    {
        if !p.is_valid() {
            return minus_infinity();
        }
        let ghost f = oracle(*math);
        let ghost ev = events_of(self.t_buy@, self.t_sell@);
        let mut ll = Real::whole(0);
        let mut r_buy = Real::whole(0);
        let mut r_sell = Real::whole(0);
        let mut n: usize = 0;
        while n < self.order.len()
            invariant
                is_function(*math),
                f == oracle(*math),
                self.wf(),
                p.valid(),
                ev == events_of(self.t_buy@, self.t_sell@),
                n <= self.order@.len(),
                progress(f, ev, *p, n as nat) == Some(Progress { ll, r_buy, r_sell }),
            decreases self.order@.len() - n,
        {
            let at: usize = self.order[n];
            let is_buy = at < self.t_buy.len();
            let prev_t = if n == 0 {
                Real::whole(0)
            } else {
                self.times[self.order[n - 1]]
            };
            let dt = self.times[at] - prev_t;
            let decay = exp(math, p.beta.neg() * dt);
            r_buy = r_buy * decay;
            r_sell = r_sell * decay;
            let lambda = if is_buy {
                p.mu_buy + p.alpha_bb * r_buy + p.alpha_sb * r_sell
            } else {
                p.mu_sell + p.alpha_ss * r_sell + p.alpha_bs * r_buy
            };
            if lambda <= Real::whole(0) {
                proof {
                    lemma_stopped(f, ev, *p, (n + 1) as nat, ev.times.len());
                }
                return minus_infinity();
            }
            ll = ll + ln(math, lambda);
            if is_buy {
                r_buy = r_buy + Real::whole(1);
            } else {
                r_sell = r_sell + Real::whole(1);
            }
            n += 1;
        }
        let b = decayed_sum(&self.t_buy, p.beta, self.t_end, math);
        let a = decayed_sum(&self.t_sell, p.beta, self.t_end, math);
        let integral_buy = p.mu_buy * self.t_end + (p.alpha_bb / p.beta) * b + (p.alpha_sb
            / p.beta) * a;
        let integral_sell = p.mu_sell * self.t_end + (p.alpha_ss / p.beta) * a + (p.alpha_bs
            / p.beta) * b;
        ll - integral_buy - integral_sell
    }

    fn slope<M: Fn(Elementary) -> Real>(&self, p: &HawkesParams, i: usize, math: &M) -> (r: Real)
        requires
            self.wf(),
            is_function(*math),
        ensures
            r == gradient(oracle(*math), self.t_buy@, self.t_sell@, self.t_end, *p, i as int),
    {
        let eps = Real::ratio(1, 1_000_000);
        let hi = p.shifted(i, eps);
        let lo = p.shifted(i, eps.neg());
        (self.hawkes_ll(&hi, math) - self.hawkes_ll(&lo, math)) / (Real::whole(2) * eps)
    }

    fn ascend<M: Fn(Elementary) -> Real>(&self, p: &HawkesParams, math: &M) -> (r: HawkesParams)
        requires
            self.wf(),
            is_function(*math),
        ensures
            r == ascended(oracle(*math), self.t_buy@, self.t_sell@, self.t_end, *p),
    {
        let lr = Real::ratio(1, 100_000);
        let o = Real::whole(0);
        let least = Real::ratio(1, 100_000_000);
        HawkesParams {
            mu_buy: (p.mu_buy + lr * self.slope(p, 0, math)).max(least),
            mu_sell: (p.mu_sell + lr * self.slope(p, 1, math)).max(least),
            alpha_bb: (p.alpha_bb + lr * self.slope(p, 2, math)).max(o),
            alpha_ss: (p.alpha_ss + lr * self.slope(p, 3, math)).max(o),
            alpha_bs: (p.alpha_bs + lr * self.slope(p, 4, math)).max(o),
            alpha_sb: (p.alpha_sb + lr * self.slope(p, 5, math)).max(o),
            beta: (p.beta + lr * self.slope(p, 6, math)).max(Real::ratio(1, 100)),
        }
    }
}

proof fn lemma_stopped(f: Oracle, ev: Events, p: HawkesParams, n: nat, m: nat)
    requires
        n <= m,
        progress(f, ev, p, n) is None,
    ensures
        progress(f, ev, p, m) is None,
    decreases m,
{
    if n < m {
        lemma_stopped(f, ev, p, n, (m - 1) as nat);
    }
}

/// The best of the ascent is at least as likely as every point passed, as far as
/// the likelihoods are numbers.
#[verifier::spinoff_prover]
pub proof fn ascent_keeps_the_best(
    f: Oracle,
    t_buy: Seq<Real>,
    t_sell: Seq<Real>,
    t_end: Real,
    start: HawkesParams,
    n: nat,
    i: nat,
)
    requires
        i < n,
    ensures
        !(likelihood(
            f,
            t_buy,
            t_sell,
            t_end,
            ascent(f, t_buy, t_sell, t_end, start, i).at,
        ) > ascent(f, t_buy, t_sell, t_end, start, n).best_ll),
        !ascent(f, t_buy, t_sell, t_end, start, n).best_ll.nan(),
    decreases n,
{
    let m = (n - 1) as nat;
    let before = ascent(f, t_buy, t_sell, t_end, start, m);
    let after = ascent(f, t_buy, t_sell, t_end, start, n);
    let ll = likelihood(f, t_buy, t_sell, t_end, before.at);
    lemma_best_number(f, t_buy, t_sell, t_end, start, m);
    assert(after.best_ll == if ll > before.best_ll {
        ll
    } else {
        before.best_ll
    });
    if i < m {
        ascent_keeps_the_best(f, t_buy, t_sell, t_end, start, m, i);
        let x = likelihood(f, t_buy, t_sell, t_end, ascent(f, t_buy, t_sell, t_end, start, i).at);
        assert(!(x > before.best_ll));
        assert(!(x > after.best_ll));
    }
}

proof fn lemma_best_number(
    f: Oracle,
    t_buy: Seq<Real>,
    t_sell: Seq<Real>,
    t_end: Real,
    start: HawkesParams,
    n: nat,
)
    ensures
        !ascent(f, t_buy, t_sell, t_end, start, n).best_ll.nan(),
    decreases n,
{
    if n > 0 {
        lemma_best_number(f, t_buy, t_sell, t_end, start, (n - 1) as nat);
    }
}

impl HawkesProcess {
    /// The process fitted to ascending arrival times in milliseconds; nothing
    /// with fewer than ten events on a side.
    pub fn fit<M: Fn(Elementary) -> Real>(
        buy_times: &[u64],
        sell_times: &[u64],
        math: &M,
    ) -> (r: Result<Self, TooFewEvents>)
        requires
            is_function(*math),
        ensures
            r == if buy_times@.len() < 10 || sell_times@.len() < 10 {
                Err::<HawkesProcess, TooFewEvents>(
                    TooFewEvents {
                        buy: buy_times@.len() as usize,
                        sell: sell_times@.len() as usize,
                    },
                )
            } else {
                Ok(fitted(oracle(*math), buy_times@, sell_times@))
            },
    {
        if buy_times.len() < 10 || sell_times.len() < 10 {
            return Err(TooFewEvents { buy: buy_times.len(), sell: sell_times.len() });
        }
        let t_buy = to_seconds(buy_times);
        let t_sell = to_seconds(sell_times);
        let t_end = t_buy[t_buy.len() - 1].max(t_sell[t_sell.len() - 1]);
        let start = HawkesParams {
            mu_buy: Real::count(t_buy.len()) / t_end.max(Real::whole(1)),
            mu_sell: Real::count(t_sell.len()) / t_end.max(Real::whole(1)),
            alpha_bb: Real::ratio(3, 10),
            alpha_ss: Real::ratio(3, 10),
            alpha_bs: Real::ratio(1, 10),
            alpha_sb: Real::ratio(1, 10),
            beta: Real::whole(1),
        };
        let ghost b = t_buy@;
        let ghost a = t_sell@;
        let arrivals = Arrivals::new(t_buy, t_sell, t_end);
        let mut s = Ascent { at: start, best_ll: minus_infinity(), best: start };
        let mut n: usize = 0;
        while n < STEPS
            invariant
                is_function(*math),
                n <= STEPS,
                arrivals.wf(),
                arrivals.t_buy@ == b,
                arrivals.t_sell@ == a,
                arrivals.t_end == t_end,
                s == ascent(oracle(*math), b, a, t_end, start, n as nat),
            decreases STEPS - n,
        {
            let ll = arrivals.hawkes_ll(&s.at, math);
            let mut next = s;
            if ll > s.best_ll {
                next.best_ll = ll;
                next.best = s.at;
            }
            next.at = arrivals.ascend(&s.at, math);
            s = next;
            n += 1;
        }
        Ok(
            Self {
                mu_buy: s.best.mu_buy,
                mu_sell: s.best.mu_sell,
                alpha_bb: s.best.alpha_bb,
                alpha_ss: s.best.alpha_ss,
                alpha_bs: s.best.alpha_bs,
                alpha_sb: s.best.alpha_sb,
                beta: s.best.beta,
                log_likelihood: s.best_ll,
            },
        )
    }

    pub open spec fn spec_cross_excitation_ratio(&self) -> Real {
        if self.alpha_bb < Real::ratio(1, 10_000_000_000) {
            Real::whole(0)
        } else {
            self.alpha_bs / self.alpha_bb
        }
    }

    /// How strongly a buy triggers sells, relative to buys. High values point to
    /// informed trading or cascades of stops.
    #[verifier::when_used_as_spec(spec_cross_excitation_ratio)]
    pub fn cross_excitation_ratio(&self) -> (r: Real)
        ensures
            r == self.spec_cross_excitation_ratio(),
    {
        if self.alpha_bb < Real::ratio(1, 10_000_000_000) {
            return Real::whole(0);
        }
        self.alpha_bs / self.alpha_bb
    }

    pub open spec fn spec_intensity_ofi(&self) -> Real {
        let total = self.mu_buy + self.mu_sell;
        if total < Real::ratio(1, 10_000_000_000) {
            Real::whole(0)
        } else {
            (self.mu_buy - self.mu_sell) / total
        }
    }

    /// Order flow imbalance that the background rates imply.
    #[verifier::when_used_as_spec(spec_intensity_ofi)]
    pub fn intensity_ofi(&self) -> (r: Real)
        ensures
            r == self.spec_intensity_ofi(),
    {
        let total = self.mu_buy + self.mu_sell;
        if total < Real::ratio(1, 10_000_000_000) {
            return Real::whole(0);
        }
        (self.mu_buy - self.mu_sell) / total
    }
}

} // verus!
