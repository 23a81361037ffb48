//! Online frequency-domain features by the Goertzel algorithm.
//!
//! Each target period costs one pass over the window and no future data. High
//! spectral entropy points to fat tails, a short dominant period to mean
//! reversion, and a low noise to trend ratio to a sustained move.
use vstd::prelude::*;

use crate::num::constants::{pi, tiny20};
use crate::num::elementary::{ask, is_function, ln, ln_of, oracle, Elementary, Oracle};
use crate::num::order::{clamp_unit, lemma_whole_order};
use crate::num::series::{argmax, last_max, mean, mean_of, sum, sum_of_seq};
use crate::num::Real;

verus! {

/// Number of target periods.
pub const N_BANDS: usize = 5;

/// The target periods in bars.
pub open spec fn spec_target_period(i: int) -> usize {
    if i == 0 {
        4
    } else if i == 1 {
        8
    } else if i == 2 {
        16
    } else if i == 3 {
        32
    } else {
        64
    }
}

fn target_period(i: usize) -> (r: usize)
    ensures
        r == spec_target_period(i as int),
{
    match i {
        0 => 4,
        1 => 8,
        2 => 16,
        3 => 32,
        _ => 64,
    }
}

/// Frequency-domain features of one asset at one time.
#[derive(Debug, Clone, Copy)]
pub struct FrequencyFeatures {
    /// Share of the spectral power at each target period.
    pub band_powers: [Real; 5],
    /// Period with the most power, in bars.
    pub dominant_period: Real,
    /// Spectral entropy between zero and one.
    pub spectral_entropy: Real,
    /// Power at periods up to 8 bars over power at periods from 16 bars.
    pub noise_trend_ratio: Real,
    /// Phase of the dominant component.
    pub dominant_phase: Real,
}

impl Default for FrequencyFeatures {
    fn default() -> (r: Self)
        ensures
            forall|i: int| 0 <= i < N_BANDS ==> #[trigger] r.band_powers@[i] == Real::whole(0),
            r.dominant_period == Real::whole(16),
            r.spectral_entropy == Real::whole(1),
            r.noise_trend_ratio == Real::whole(1),
            r.dominant_phase == Real::whole(0),
    {
        let o = Real::whole(0);
        Self {
            band_powers: [o, o, o, o, o],
            dominant_period: Real::whole(16),
            spectral_entropy: Real::whole(1),
            noise_trend_ratio: Real::whole(1),
            dominant_phase: o,
        }
    }
}

impl FrequencyFeatures {
    /// All features as one vector, the last four normalised.
    pub open spec fn vector(&self) -> Seq<Real> {
        seq![
            self.band_powers@[0],
            self.band_powers@[1],
            self.band_powers@[2],
            self.band_powers@[3],
            self.band_powers@[4],
            self.dominant_period / Real::count(64),
            self.spectral_entropy,
            self.noise_trend_ratio.min(Real::whole(10)) / Real::whole(10),
            self.dominant_phase / pi(),
        ]
    }

    /// All features as one vector.
    pub fn to_vec(&self) -> (r: Vec<Real>)
        ensures
            r@ == self.vector(),
    {
        let mut v: Vec<Real> = Vec::new();
        v.push(self.band_powers[0]);
        v.push(self.band_powers[1]);
        v.push(self.band_powers[2]);
        v.push(self.band_powers[3]);
        v.push(self.band_powers[4]);
        v.push(self.dominant_period / Real::count(64));
        v.push(self.spectral_entropy);
        v.push(self.noise_trend_ratio.min(Real::whole(10)) / Real::whole(10));
        v.push(self.dominant_phase / pi());
        assert(v@ =~= self.vector());
        v
    }

    /// Number of features.
    pub fn n_features() -> (r: usize)
        ensures
            r == 9,
    {
        N_BANDS + 4
    }

    /// Trend and noise scores between zero and one.
    pub fn regime_scores(&self) -> (r: (Real, Real))
        ensures
            r == scores_of(self.spectral_entropy, self.noise_trend_ratio),
            r.0.nan() || (Real::whole(0) <= r.0 && r.0 <= Real::whole(1)),
            r.1.nan() || (Real::whole(0) <= r.1 && r.1 <= Real::whole(1)),
    {
        let one = Real::whole(1);
        let trend_score = (one - self.spectral_entropy) * (one / self.noise_trend_ratio.max(
            Real::ratio(1, 10),
        )).min(one);
        let noise_score = self.spectral_entropy * self.noise_trend_ratio.min(one);
        (clamp_unit(trend_score), clamp_unit(noise_score))
    }
}

/// Trend and noise scores between zero and one, of an entropy and a ratio of
/// noise to trend.
pub open spec fn scores_of(entropy: Real, ratio: Real) -> (Real, Real) {
    let one = Real::whole(1);
    let trend = (one - entropy) * (one / ratio.max(Real::ratio(1, 10))).min(one);
    let noise = entropy * ratio.min(one);
    (trend.clamp(Real::whole(0), one), noise.clamp(Real::whole(0), one))
}

/// The last two values of the Goertzel recursion after the first `n` samples,
/// newest first.
pub open spec fn goertzel_state(signal: Seq<Real>, coeff: Real, n: nat) -> (Real, Real)
    decreases n,
{
    if n == 0 {
        (Real::whole(0), Real::whole(0))
    } else {
        let (s1, s2) = goertzel_state(signal, coeff, (n - 1) as nat);
        (signal[n - 1] + coeff * s1 - s2, s1)
    }
}

/// The angle per sample of a period.
pub open spec fn angle_of(n: usize, period: usize) -> Real {
    Real::whole(2) * pi() * (Real::count(n) / Real::count(period)) / Real::count(n)
}

/// Real and imaginary part of the Fourier coefficient of a period, for a signal of
/// `n` samples; zero where the signal is shorter than the period.
pub open spec fn goertzel_of(f: Oracle, signal: Seq<Real>, n: usize, period: usize) -> (
    Real,
    Real,
) {
    if period == 0 || period > n {
        (Real::whole(0), Real::whole(0))
    } else {
        let omega = angle_of(n, period);
        let cos = f(Elementary::Cos(omega));
        let (s1, s2) = goertzel_state(signal, Real::whole(2) * cos, signal.len());
        (s1 * cos - s2, s1 * f(Elementary::Sin(omega)))
    }
}

/// The Goertzel algorithm: one Fourier coefficient, that of a period, for a signal
/// of `n` samples.
pub fn goertzel<M: Fn(Elementary) -> Real>(
    signal: &[Real],
    n: usize,
    period: usize,
    math: &M,
) -> (r: (Real, Real))
    requires
        is_function(*math),
    ensures
        r == goertzel_of(oracle(*math), signal@, n, period),
{
    if period == 0 || period > n {
        return (Real::whole(0), Real::whole(0));
    }
    let k = Real::count(n) / Real::count(period);
    let omega = Real::whole(2) * pi() * k / Real::count(n);
    let cos = ask(math, Elementary::Cos(omega));
    let coeff = Real::whole(2) * cos;
    let mut s_prev2 = Real::whole(0);
    let mut s_prev1 = Real::whole(0);
    let mut i: usize = 0;
    while i < signal.len()
        invariant
            i <= signal@.len(),
            (s_prev1, s_prev2) == goertzel_state(signal@, coeff, i as nat),
        decreases signal@.len() - i,
    {
        let s = signal[i] + coeff * s_prev1 - s_prev2;
        s_prev2 = s_prev1;
        s_prev1 = s;
        i += 1;
    }
    let re = s_prev1 * cos - s_prev2;
    let im = s_prev1 * ask(math, Elementary::Sin(omega));
    (re, im)
}

/// The samples less their mean.
pub open spec fn demeaned_of(signal: Seq<Real>) -> Seq<Real> {
    signal.map_values(|x: Real| x - mean_of(signal))
}

/// The Fourier coefficients at the target periods.
pub open spec fn spectrum_of(f: Oracle, signal: Seq<Real>) -> Seq<(Real, Real)> {
    Seq::new(
        N_BANDS as nat,
        |i: int|
            goertzel_of(f, demeaned_of(signal), signal.len() as usize, spec_target_period(i)),
    )
}

/// The squared magnitudes of coefficients.
pub open spec fn powers_of(spectrum: Seq<(Real, Real)>) -> Seq<Real> {
    spectrum.map_values(|c: (Real, Real)| c.0 * c.0 + c.1 * c.1)
}

/// The shares of powers in their sum.
pub open spec fn shares_of(powers: Seq<Real>) -> Seq<Real> {
    powers.map_values(|p: Real| p / sum_of_seq(powers).max(tiny20()))
}

/// The terms of the entropy of those shares that do not vanish.
pub open spec fn entropy_terms(f: Oracle, shares: Seq<Real>) -> Seq<Real>
    decreases shares.len(),
{
    if shares.len() == 0 {
        Seq::empty()
    } else {
        let before = entropy_terms(f, shares.drop_last());
        let p = shares.last();
        if p > Real::ratio(1, 1_000_000_000_000_000) {
            before.push(p.neg() * ln_of(f, p))
        } else {
            before
        }
    }
}

/// The entropy of shares over its maximum.
pub open spec fn entropy_of(f: Oracle, shares: Seq<Real>) -> Real {
    (sum_of_seq(entropy_terms(f, shares)) / ln_of(f, Real::count(N_BANDS)).max(
        Real::ratio(1, 1_000_000_000_000_000),
    )).clamp(Real::whole(0), Real::whole(1))
}

/// The shares of a signal's power at the target periods.
pub open spec fn band_shares(f: Oracle, signal: Seq<Real>) -> Seq<Real> {
    shares_of(powers_of(spectrum_of(f, signal)))
}

/// The power at periods up to 8 bars over the power at periods from 16 bars.
pub open spec fn noise_ratio_of(shares: Seq<Real>) -> Real {
    sum_of_seq(seq![shares[0], shares[1]]) / sum_of_seq(
        seq![shares[2], shares[3], shares[4]],
    ).max(Real::ratio(1, 1_000_000_000_000_000))
}

/// The features are those of the signal.
pub open spec fn are_features(r: FrequencyFeatures, f: Oracle, signal: Seq<Real>) -> bool {
    let spectrum = spectrum_of(f, signal);
    let shares = band_shares(f, signal);
    let best = last_max(shares);
    &&& r.band_powers@ == shares
    &&& r.dominant_period == Real::count(spec_target_period(best))
    &&& r.spectral_entropy == entropy_of(f, shares)
    &&& r.noise_trend_ratio == noise_ratio_of(shares)
    &&& r.dominant_phase == f(Elementary::Atan2(spectrum[best].1, spectrum[best].0))
}

fn demean(signal: &[Real]) -> (r: Vec<Real>)
    ensures
        r@ == demeaned_of(signal@),
{
    let m = mean(signal);
    let mut out: Vec<Real> = Vec::new();
    let mut i: usize = 0;
    while i < signal.len()
        invariant
            i <= signal@.len(),
            m == mean_of(signal@),
            out@ =~= demeaned_of(signal@).take(i as int),
        decreases signal@.len() - i,
    {
        out.push(signal[i] - m);
        i += 1;
    }
    assert(out@ =~= demeaned_of(signal@));
    out
}

fn entropy<M: Fn(Elementary) -> Real>(shares: &Vec<Real>, math: &M) -> (r: Real)
    requires
        is_function(*math),
    ensures
        r == entropy_of(oracle(*math), shares@),
{
    let max_h = ln(math, Real::count(N_BANDS));
    let mut terms: Vec<Real> = Vec::new();
    let mut i: usize = 0;
    while i < shares.len()
        invariant
            is_function(*math),
            i <= shares@.len(),
            terms@ == entropy_terms(oracle(*math), shares@.take(i as int)),
        decreases shares@.len() - i,
    {
        let p = shares[i];
        if p > Real::ratio(1, 1_000_000_000_000_000) {
            terms.push(p.neg() * ln(math, p));
        }
        assert(shares@.take(i + 1).drop_last() =~= shares@.take(i as int));
        i += 1;
    }
    assert(shares@.take(i as int) =~= shares@);
    clamp_unit(sum(terms.as_slice()) / max_h.max(Real::ratio(1, 1_000_000_000_000_000)))
}

fn compute_features<M: Fn(Elementary) -> Real>(signal: &[Real], math: &M) -> (r: FrequencyFeatures)
    requires
        is_function(*math),
    ensures
        are_features(r, oracle(*math), signal@),
{
    let demeaned = demean(signal);
    let ghost spectrum = spectrum_of(oracle(*math), signal@);
    let mut coefficients: Vec<(Real, Real)> = Vec::new();
    let mut powers: Vec<Real> = Vec::new();
    let mut b: usize = 0;
    while b < N_BANDS
        invariant
            b <= N_BANDS,
            is_function(*math),
            demeaned@ == demeaned_of(signal@),
            spectrum == spectrum_of(oracle(*math), signal@),
            coefficients@ =~= spectrum.take(b as int),
            powers@ =~= powers_of(spectrum).take(b as int),
        decreases N_BANDS - b,
    {
        let c = goertzel(demeaned.as_slice(), demeaned.len(), target_period(b), math);
        coefficients.push(c);
        powers.push(c.0 * c.0 + c.1 * c.1);
        b += 1;
    }
    assert(coefficients@ =~= spectrum);
    assert(powers@ =~= powers_of(spectrum));
    let total = sum(powers.as_slice()).max(tiny20());
    let mut norm: Vec<Real> = Vec::new();
    let mut i: usize = 0;
    while i < N_BANDS
        invariant
            i <= N_BANDS,
            powers@.len() == N_BANDS,
            total == sum_of_seq(powers@).max(tiny20()),
            norm@ =~= shares_of(powers@).take(i as int),
        decreases N_BANDS - i,
    {
        norm.push(powers[i] / total);
        i += 1;
    }
    assert(norm@ =~= shares_of(powers@));
    let best: usize = argmax(norm.as_slice());
    let short = vec![norm[0], norm[1]];
    let long = vec![norm[2], norm[3], norm[4]];
    assert(short@ =~= seq![norm@[0], norm@[1]]);
    assert(long@ =~= seq![norm@[2], norm@[3], norm@[4]]);
    let short_power = sum(short.as_slice());
    let long_power = sum(long.as_slice());
    let r = FrequencyFeatures {
        band_powers: [norm[0], norm[1], norm[2], norm[3], norm[4]],
        dominant_period: Real::count(target_period(best)),
        spectral_entropy: entropy(&norm, math),
        noise_trend_ratio: short_power / long_power.max(Real::ratio(1, 1_000_000_000_000_000)),
        dominant_phase: ask(math, Elementary::Atan2(coefficients[best].1, coefficients[best].0)),
    };
    assert(r.band_powers@ =~= norm@);
    r
}

/// The entropy lies between zero and one as far as it is a number.
pub proof fn entropy_is_in_range(f: Oracle, shares: Seq<Real>)
    ensures
        entropy_of(f, shares).nan() || (Real::whole(0) <= entropy_of(f, shares) && entropy_of(
            f,
            shares,
        ) <= Real::whole(1)),
{
    lemma_whole_order(0, 1);
}

/// Online extractor over a rolling window of prices.
#[derive(Debug)]
pub struct FrequencyExtractor {
    window: Vec<Real>,
    window_size: usize,
    head: usize,
    full: bool,
}

/// The place `i` steps behind `head` in a ring of `n` places.
spec fn ring_place(head: int, i: int, n: int) -> int {
    if head + i < n {
        head + i
    } else {
        head + i - n
    }
}

impl FrequencyExtractor {
    /// The window is as long as it was made, and long enough for the longest
    /// period.
    pub closed spec fn wf(&self) -> bool {
        &&& self.window@.len() == self.window_size
        &&& self.window_size >= 64
        &&& self.head < self.window_size
    }

    /// Length of the window.
    pub closed spec fn size(&self) -> nat {
        self.window_size as nat
    }

    /// The last prices, oldest first, behind zeros while there are too few.
    pub closed spec fn history(&self) -> Seq<Real> {
        Seq::new(
            self.window_size as nat,
            |i: int| self.window@[ring_place(self.head as int, i, self.window_size as int)],
        )
    }

    /// How many of the last prices have been seen.
    pub closed spec fn seen(&self) -> nat {
        if self.full {
            self.window_size as nat
        } else {
            self.head as nat
        }
    }

    /// An extractor without prices.
    pub fn new(window_size: usize) -> (r: Self)
        requires
            window_size >= 64,
        ensures
            r.wf(),
            r.size() == window_size,
            r.seen() == 0,
            r.history() == Seq::new(window_size as nat, |i: int| Real::whole(0)),
    {
        let mut window: Vec<Real> = Vec::new();
        let mut i: usize = 0;
        while i < window_size
            invariant
                i <= window_size,
                window@.len() == i,
                forall|j: int| 0 <= j < i ==> #[trigger] window@[j] == Real::whole(0),
            decreases window_size - i,
        {
            window.push(Real::whole(0));
            i += 1;
        }
        let r = Self { window, window_size, head: 0, full: false };
        assert(r.history() =~= Seq::new(window_size as nat, |i: int| Real::whole(0)));
        r
    }

    fn chronological(&self) -> (r: Vec<Real>)
        requires
            self.wf(),
        ensures
            r@ == self.history(),
    {
        let mut s: Vec<Real> = Vec::new();
        let mut i: usize = 0;
        while i < self.window_size
            invariant
                self.wf(),
                i <= self.window_size,
                s@ =~= self.history().take(i as int),
            decreases self.window_size - i,
        {
            let idx: usize = if i < self.window_size - self.head {
                self.head + i
            } else {
                i - (self.window_size - self.head)
            };
            s.push(self.window[idx]);
            i += 1;
        }
        assert(s@ =~= self.history());
        s
    }

    /// Takes a price and gives the features of the window, once it is full.
    pub fn update<M: Fn(Elementary) -> Real>(&mut self, price: Real, math: &M) -> (r: Option<
        FrequencyFeatures,
    >)
        requires
            old(self).wf(),
            is_function(*math),
        ensures
            final(self).wf(),
            final(self).size() == old(self).size(),
            final(self).history() == old(self).history().drop_first().push(price),
            final(self).seen() == if old(self).seen() < old(self).size() {
                old(self).seen() + 1
            } else {
                old(self).size()
            },
            r is Some <==> final(self).seen() == final(self).size(),
            r matches Some(x) ==> are_features(x, oracle(*math), final(self).history()),
    {
        let n: usize = self.window_size;
        self.window.set(self.head, price);
        self.head = if self.head + 1 == n {
            0
        } else {
            self.head + 1
        };
        if !self.full && self.head == 0 {
            self.full = true;
        }
        proof {
            assert(self.history() =~= old(self).history().drop_first().push(price));
        }
        if !self.full {
            return None;
        }
        let signal = self.chronological();
        Some(compute_features(signal.as_slice(), math))
    }

    /// The features of the window, once it is full.
    pub fn latest<M: Fn(Elementary) -> Real>(&self, math: &M) -> (r: Option<FrequencyFeatures>)
        requires
            self.wf(),
            is_function(*math),
        ensures
            r is Some <==> self.seen() == self.size(),
            r matches Some(x) ==> are_features(x, oracle(*math), self.history()),
    {
        if !self.full {
            return None;
        }
        let signal = self.chronological();
        Some(compute_features(signal.as_slice(), math))
    }
}

} // verus!
