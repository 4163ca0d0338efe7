//! A sensor bounded by a rectangle.
use vstd::prelude::*;
use crate::geometry::trapezoid::Trapezoid;

verus! {

/// A sensor of rectangular shape. A rectangle is a quadrilateral like any
/// other: it is built, placed and asked as a [`Trapezoid`] is.
pub type Rectangle = Trapezoid;

} // verus!
