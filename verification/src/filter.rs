//! Prediction, filtering and smoothing of track states.
pub mod prediction;
pub mod utils;
pub mod linear;
pub mod constant_magnetic_field;
pub mod definite;
