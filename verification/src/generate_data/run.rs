//! The regrouping of residuals, sensor by sensor.
pub mod general;
