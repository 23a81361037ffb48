//! Statistical models of returns and spreads.
pub mod cauchy;
pub mod cointegration;
pub mod common;
pub mod discrete;
pub mod distribution;
pub mod garch;
pub mod laws;
pub mod student;
