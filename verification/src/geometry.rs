//! Planar sensors: their boundary, their plane and their place in space.
pub mod utils;
pub mod affine;
pub mod plane;
pub mod traits;
pub mod trapezoid;
pub mod rectangle;
pub mod ray;
