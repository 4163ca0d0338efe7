//! What a planar sensor can do: carry points between its own frame and the
//! global one, and say whether a point lies on it.
use vstd::prelude::*;
use crate::config::{P3, Vec3};
use crate::error::SensorError;
use crate::geometry::affine::{
    affine_apply, affine_defined, is_affine, lemma_affine_maps_are_inverse,
};
use crate::geometry::plane::on_plane_result;
use crate::geometry::utils::{inside, inside_defined, normal_defined, normal_of};
use crate::inverse::inverse_pair;
use crate::real_matrix::shaped;

verus! {

/// What `contains_from_local` returns for a sensor with the cached normal
/// `normal` and the corners `corners`.
pub open spec fn contains_result(
    normal: Option<Seq<Seq<real>>>,
    corners: Seq<Seq<Seq<real>>>,
    p: Seq<Seq<real>>,
) -> Result<bool, SensorError> {
    match on_plane_result(normal, corners[0], p) {
        Err(e) => Err(e),
        Ok(on) => if inside_defined(corners, p) {
            Ok(on && inside(corners, p))
        } else {
            Err(SensorError::ArithmeticOverflow)
        },
    }
}

/// A sensor as a place in space: an affine map from its local frame to the
/// global one, and a boundary in the local frame.
pub trait Transform {
    /// The homogeneous matrix that carries local points to global ones.
    spec fn transform(&self) -> Seq<Seq<real>>;

    /// The inverse of `transform`.
    spec fn inverse_transform(&self) -> Seq<Seq<real>>;

    /// The four corners of the sensor, in its local frame and in winding
    /// order.
    spec fn boundary(&self) -> Seq<Seq<Seq<real>>>;

    /// The normal of the plane of the sensor, once it has been computed.
    spec fn normal(&self) -> Option<Seq<Seq<real>>>;

    /// The corner with the given index, in the local frame.
    fn corner(&self, index: usize) -> (p: P3)
        requires
            index < 4,
        ensures
            p@ == self.boundary()[index as int],
    ;

    /// Carries a point of the local frame to the global frame.
    ///
    /// `None` exactly when the image cannot be computed in stored numbers.
    fn to_global(&self, input_point: P3) -> (r: Option<P3>)
        ensures
            match r {
                Some(g) => g@ == affine_apply(self.transform(), input_point@) && affine_defined(
                    self.transform(),
                    input_point@,
                ),
                None => !affine_defined(self.transform(), input_point@),
            },
    ;

    /// Carries a point of the global frame to the local frame.
    ///
    /// `None` exactly when the image cannot be computed in stored numbers.
    fn to_local(&self, input_point: P3) -> (r: Option<P3>)
        ensures
            match r {
                Some(l) => l@ == affine_apply(self.inverse_transform(), input_point@)
                    && affine_defined(self.inverse_transform(), input_point@),
                None => !affine_defined(self.inverse_transform(), input_point@),
            },
    ;

    /// Whether a point of the local frame lies on the sensor: on its plane
    /// and within its boundary.
    ///
    /// Fails with `GeometryNotReady` before the normal has been computed,
    /// and with `ArithmeticOverflow` when the test cannot be made in stored
    /// numbers.
    fn contains_from_local(&self, input: &P3) -> (r: Result<bool, SensorError>)
        ensures
            r == contains_result(self.normal(), self.boundary(), input@),
    ;
}

/// A sensor as a plane.
pub trait Plane: Transform {
    /// The normal of the plane of the sensor, through its first three
    /// corners. The first call computes and keeps it; later calls return
    /// what was kept.
    ///
    /// Fails with `ArithmeticOverflow`, and keeps nothing, when the normal
    /// cannot be computed in stored numbers.
    fn plane(&mut self) -> (r: Result<Vec3, SensorError>)
        ensures
            final(self).transform() == old(self).transform(),
            final(self).inverse_transform() == old(self).inverse_transform(),
            final(self).boundary() == old(self).boundary(),
            old(self).normal() is Some ==> final(self).normal() == old(self).normal(),
            match r {
                Ok(n) => final(self).normal() == Some(n@) && n@ == normal_of(
                    old(self).boundary()[0],
                    old(self).boundary()[1],
                    old(self).boundary()[2],
                ),
                Err(e) => e == SensorError::ArithmeticOverflow && final(self).normal() is None
                    && !normal_defined(
                    old(self).boundary()[0],
                    old(self).boundary()[1],
                    old(self).boundary()[2],
                ),
            },
    ;

    /// Whether a point of the local frame lies on the plane of the sensor.
    ///
    /// Fails with `GeometryNotReady` before the normal has been computed,
    /// and with `ArithmeticOverflow` when the test cannot be made in stored
    /// numbers.
    fn on_plane(&self, input_point: &P3) -> (r: Result<bool, SensorError>)
        ensures
            r == on_plane_result(self.normal(), self.boundary()[0], input_point@),
    ;
}

/// For a sensor whose matrix is affine, `to_local` undoes `to_global` and
/// `to_global` undoes `to_local`: a point carried over and back, in either
/// order, is the point itself.
pub proof fn lemma_sensor_round_trip<T: Transform>(sensor: &T, p: Seq<Seq<real>>)
    requires
        inverse_pair(sensor.inverse_transform(), sensor.transform(), 4),
        is_affine(sensor.transform()),
        shaped(p, 3, 1),
    ensures
        affine_apply(sensor.inverse_transform(), affine_apply(sensor.transform(), p)) == p,
        affine_apply(sensor.transform(), affine_apply(sensor.inverse_transform(), p)) == p,
{
    lemma_affine_maps_are_inverse(sensor.transform(), sensor.inverse_transform(), p);
}

} // verus!