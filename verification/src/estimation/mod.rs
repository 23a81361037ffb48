//! Online estimation of latent state and model parameters.
//!
//! Every estimator gives a Gaussian summary of the latent state. Regime shifts
//! show in the evolution of the distribution; there is no explicit classifier.
pub mod dual_kalman;
pub mod laws;
pub mod posterior;
pub mod responses;

pub use posterior::{
    standard_normal_cdf, EstimatedParameters, Observation, ParameterEstimator, StateEstimator,
    StatePosterior,
};
