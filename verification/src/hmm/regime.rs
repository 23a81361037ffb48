//! Market regimes.
use vstd::prelude::*;

use crate::num::Real;

verus! {

/// Market regime.
#[derive(Debug, Clone, Copy, PartialEq, Eq, Structural)]
pub enum Regime {
    TrendingBull,
    TrendingBear,
    Consolidation,
    HighVol,
}

impl Regime {
    /// The regime of a state.
    pub open spec fn of(i: int) -> Regime {
        if i == 0 {
            Regime::TrendingBull
        } else if i == 1 {
            Regime::TrendingBear
        } else if i == 2 {
            Regime::Consolidation
        } else {
            Regime::HighVol
        }
    }

    /// The regime of a state.
    pub fn from_index(i: usize) -> (r: Self)
        ensures
            r == Regime::of(i as int),
    {
        match i {
            0 => Regime::TrendingBull,
            1 => Regime::TrendingBear,
            2 => Regime::Consolidation,
            _ => Regime::HighVol,
        }
    }

    /// The text shown for the regime.
    pub fn label(&self) -> (r: &'static str)
        ensures
            r@ == match self {
                Regime::TrendingBull => "Trending Bull"@,
                Regime::TrendingBear => "Trending Bear"@,
                Regime::Consolidation => "Consolidation"@,
                Regime::HighVol => "High-Vol Chaos"@,
            },
    {
        match self {
            Regime::TrendingBull => "Trending Bull",
            Regime::TrendingBear => "Trending Bear",
            Regime::Consolidation => "Consolidation",
            Regime::HighVol => "High-Vol Chaos",
        }
    }

    /// Maximum leverage in this regime.
    pub fn max_leverage(&self) -> (r: Real)
        ensures
            r == match self {
                Regime::TrendingBull | Regime::TrendingBear => Real::whole(5),
                Regime::Consolidation => Real::whole(2),
                Regime::HighVol => Real::whole(1),
            },
    {
        match self {
            Regime::TrendingBull | Regime::TrendingBear => Real::whole(5),
            Regime::Consolidation => Real::whole(2),
            Regime::HighVol => Real::whole(1),
        }
    }

    /// Size of a position relative to a full one.
    pub fn size_scale(&self) -> (r: Real)
        ensures
            r == match self {
                Regime::TrendingBull | Regime::TrendingBear => Real::whole(1),
                Regime::Consolidation => Real::ratio(1, 2),
                Regime::HighVol => Real::ratio(2, 10),
            },
    {
        match self {
            Regime::TrendingBull | Regime::TrendingBear => Real::whole(1),
            Regime::Consolidation => Real::ratio(1, 2),
            Regime::HighVol => Real::ratio(2, 10),
        }
    }

    /// Least risk-reward ratio of a signal.
    pub fn min_rr(&self) -> (r: Real)
        ensures
            r == match self {
                Regime::TrendingBull | Regime::TrendingBear => Real::whole(2),
                Regime::Consolidation => Real::ratio(3, 2),
                Regime::HighVol => Real::whole(3),
            },
    {
        match self {
            Regime::TrendingBull | Regime::TrendingBear => Real::whole(2),
            Regime::Consolidation => Real::ratio(3, 2),
            Regime::HighVol => Real::whole(3),
        }
    }
}

/// Current regime with its uncertainty.
#[derive(Debug)]
pub struct RegimeState {
    pub regime: Regime,
    pub probability: Real,
    /// Probability of each state.
    pub posterior: Vec<Real>,
}

impl RegimeState {
    pub fn is_confident(&self) -> (r: bool)
        ensures
            r == (self.probability > Real::ratio(65, 100)),
    {
        self.probability > Real::ratio(65, 100)
    }
}

} // verus!
