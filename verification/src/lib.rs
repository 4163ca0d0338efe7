//! Exact fits of particle tracks through planar sensors.
//!
//! A track crosses a row of sensors and leaves a hit on each. From the hits
//! the fit estimates the state of the track on every sensor three times: as
//! predicted before the hit of the sensor is used, as filtered once it has
//! been, and as smoothed when all hits are known.
//!
//! Every number is an exact [`rational::Rational`] with 64-bit numerator and
//! denominator. Nothing is rounded: an operation returns the true result, or
//! reports that it cannot be stored. Where a computation has several steps
//! it fails as soon as one of them cannot be stored, and the contracts say
//! for which inputs that happens. What floating point can only promise up to
//! a tolerance holds exactly here and is proved: sensors carry points there
//! and back without loss, covariances stay symmetric, the filter reproduces
//! hits that carry no noise, and smoothing never widens a covariance.
//!
//! The modules, leaves first:
//! - [`number_theory`], [`rational`]: fractions in lowest terms;
//! - [`real_matrix`]: matrices of real numbers and their algebra, which all
//!   contracts are stated over;
//! - [`matrix`], [`inverse`]: matrices of rationals with their shape in the
//!   type, and their inversion;
//! - [`geometry`]: points, planes, affine maps and the sensors built of them;
//! - [`filter`]: prediction, the update by a hit, smoothing, and the fit;
//! - [`generate_data`]: residuals and pulls of finished fits.
pub mod number_theory;
pub mod rational;
pub mod real_matrix;
pub mod matrix;
pub mod inverse;
pub mod elimination;
pub mod config;
pub mod error;
pub mod geometry;
pub mod filter;
pub mod generate_data;

pub use geometry::rectangle::Rectangle;
pub use geometry::trapezoid::Trapezoid;
pub use geometry::traits as sensor_traits;
pub use filter::utils::{Data, SuperData};
