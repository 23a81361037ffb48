//! Gradient boosted trees and the models built from them.
pub mod ensemble;
pub mod gradient_boost;
pub mod laws;
pub mod tree;
