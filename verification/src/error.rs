//! The ways in which a sensor or a fit can fail.
use vstd::prelude::*;

verus! {

/// Why a sensor could not be built or a track could not be carried on.
///
/// Every error ends the fit of one track and leaves the sensors and every
/// other track as they were.
#[derive(Clone, Copy, Debug, PartialEq, Eq, Structural)]
pub enum SensorError {
    /// The transformation given to a sensor has no inverse.
    NonInvertibleTransform,
    /// The normal of a sensor was asked for before it was computed.
    GeometryNotReady,
    /// A track does not meet the sensor within its boundary.
    OutsideSensorBounds,
    /// The covariance of a residual, or of a prediction, has no inverse.
    SingularMatrix,
    /// A number on the way cannot be stored exactly.
    ArithmeticOverflow,
}

/// What an error says of itself.
pub open spec fn message_of(e: SensorError) -> Seq<char> {
    match e {
        SensorError::NonInvertibleTransform => "the transformation of the sensor has no inverse"@,
        SensorError::GeometryNotReady => "the normal of the sensor has not been computed"@,
        SensorError::OutsideSensorBounds => "the track does not meet the sensor within its bounds"@,
        SensorError::SingularMatrix => "a covariance matrix has no inverse"@,
        SensorError::ArithmeticOverflow => "a number cannot be stored exactly"@,
    }
}

impl SensorError {
    /// The error in words.
    pub fn message(&self) -> (s: &'static str)
        ensures
            s@ == message_of(*self),
    {
        match self {
            SensorError::NonInvertibleTransform => "the transformation of the sensor has no inverse",
            SensorError::GeometryNotReady => "the normal of the sensor has not been computed",
            SensorError::OutsideSensorBounds => "the track does not meet the sensor within its bounds",
            SensorError::SingularMatrix => "a covariance matrix has no inverse",
            SensorError::ArithmeticOverflow => "a number cannot be stored exactly",
        }
    }
}

} // verus!
