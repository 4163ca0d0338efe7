//! The shapes that a track fit works with.
use vstd::prelude::*;
use crate::matrix::Matrix;
use crate::rational::Rational;

verus! {

/// The number type of every quantity of a fit.
pub type Real = Rational;

/// A hit in the two local coordinates of a sensor.
pub type Vec2 = Matrix<2, 1>;

/// A direction or displacement in global space.
pub type Vec3 = Matrix<3, 1>;

/// A point in global space, or in the local frame of a sensor.
pub type P3 = Matrix<3, 1>;

/// A track state: two local coordinates, two angles and the curvature.
pub type Vec5 = Matrix<5, 1>;

/// The weight matrix of a hit, or the covariance of a residual.
pub type Mat2 = Matrix<2, 2>;

/// A homogeneous transformation of space.
pub type Mat4 = Matrix<4, 4>;

/// The covariance of a track state, or a transport Jacobian.
pub type Mat5 = Matrix<5, 5>;

/// A measurement model: it maps a track state to a hit.
pub type Mat2x5 = Matrix<2, 5>;

/// The transpose of a measurement model, and the shape of a gain matrix.
pub type Mat5x2 = Matrix<5, 2>;

} // verus!
