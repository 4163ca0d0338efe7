//! A sensor bounded by a convex quadrilateral.
use vstd::prelude::*;
use crate::config::{Mat4, P3, Vec3};
use crate::error::SensorError;
use crate::geometry::affine::{affine_part, apply_rows};
use crate::geometry::traits::{Plane, Transform};
use crate::geometry::utils::{
    corners, normal_of, organize_points, organized, plane_normal_vector, quadrilateral_contains,
    vector3_from_points,
};
use crate::inverse::{inverse_pair, InverseError, q_inverse, singular, try_inverse};
use crate::matrix::Matrix;

verus! {

/// A sensor of trapezoidal shape.
///
/// The corners are held in the local frame of the sensor. The normal of its
/// plane is not known until `plane` has been called.
#[derive(Debug)]
pub struct Trapezoid {
    points: [P3; 4],
    normal: Option<Vec3>,
    tfm: Mat4,
    inverse: Mat4,
    forward: Matrix<3, 4>,
    backward: Matrix<3, 4>,
}

impl Trapezoid {
    #[verifier::type_invariant]
    spec fn well_formed(self) -> bool {
        &&& inverse_pair(self.inverse@, self.tfm@, 4)
        &&& self.forward@ == affine_part(self.tfm@)
        &&& self.backward@ == affine_part(self.inverse@)
        &&& self.normal matches Some(n) ==> n@ == normal_of(
            self.points[0]@,
            self.points[1]@,
            self.points[2]@,
        )
    }

    /// A sensor with the given corners and the given homogeneous matrix from
    /// its local frame to the global one.
    ///
    /// The corners are brought into winding order. The matrix is inverted
    /// here, once, by elimination. `NonInvertibleTransform` is returned when
    /// the elimination finds that the matrix has no inverse, and
    /// `ArithmeticOverflow` when a number on its way cannot be stored.
    pub fn new(points: [P3; 4], tfm_matrix: Mat4) -> (r: Result<Trapezoid, SensorError>)
        ensures
            match q_inverse(tfm_matrix@) {
                Ok(x) => {
                    &&& r is Ok
                    &&& r->Ok_0.transform() == tfm_matrix@
                    &&& r->Ok_0.inverse_transform() == x
                    &&& r->Ok_0.boundary() == organized(corners(points))
                    &&& r->Ok_0.normal() is None
                },
                Err(InverseError::Singular) => r is Err && r->Err_0
                    == SensorError::NonInvertibleTransform,
                Err(InverseError::Unresolved) => r is Err && r->Err_0
                    == SensorError::ArithmeticOverflow,
            },
            r matches Ok(s) ==> inverse_pair(s.inverse_transform(), tfm_matrix@, 4),
            r matches Err(e) ==> (e == SensorError::NonInvertibleTransform ==> singular(
                tfm_matrix@,
            )),
    {
        match try_inverse(&tfm_matrix) {
            Ok(inverse) => {
                let points = organize_points(points);
                let forward = tfm_matrix.top_rows::<3>();
                let backward = inverse.top_rows::<3>();
                Ok(Trapezoid { points, normal: None, tfm: tfm_matrix, inverse, forward, backward })
            },
            Err(InverseError::Singular) => Err(SensorError::NonInvertibleTransform),
            Err(InverseError::Unresolved) => Err(SensorError::ArithmeticOverflow),
        }
    }

    /// Does nothing when run; it tells the verifier that the two matrices of
    /// a sensor are inverse to each other.
    pub fn transforms_are_inverse(&self)
        ensures
            inverse_pair(self.inverse_transform(), self.transform(), 4),
    {
        proof {
            use_type_invariant(self);
        }
    }
}

impl Transform for Trapezoid {
    closed spec fn transform(&self) -> Seq<Seq<real>> {
        self.tfm@
    }

    closed spec fn inverse_transform(&self) -> Seq<Seq<real>> {
        self.inverse@
    }

    closed spec fn boundary(&self) -> Seq<Seq<Seq<real>>> {
        corners(self.points)
    }

    closed spec fn normal(&self) -> Option<Seq<Seq<real>>> {
        match self.normal {
            Some(n) => Some(n@),
            None => None,
        }
    }

    fn corner(&self, index: usize) -> (p: P3) {
        self.points[index].duplicate()
    }

    fn to_global(&self, input_point: P3) -> (r: Option<P3>) {
        proof {
            use_type_invariant(self);
        }
        apply_rows(&self.forward, &input_point)
    }

    fn to_local(&self, input_point: P3) -> (r: Option<P3>) {
        proof {
            use_type_invariant(self);
        }
        apply_rows(&self.backward, &input_point)
    }

    fn contains_from_local(&self, input: &P3) -> (r: Result<bool, SensorError>) {
        let z_contains = self.on_plane(input)?;
        match quadrilateral_contains(&self.points, input) {
            Some(xy_contains) => Ok(xy_contains && z_contains),
            None => Err(SensorError::ArithmeticOverflow),
        }
    }
}

impl Plane for Trapezoid {
    fn plane(&mut self) -> (r: Result<Vec3, SensorError>) {
        proof {
            use_type_invariant(&*self);
        }
        match &self.normal {
            Some(x) => Ok(x.duplicate()),
            None => {
                match plane_normal_vector(&self.points[0], &self.points[1], &self.points[2]) {
                    Some(normal_vector) => {
                        self.normal = Some(normal_vector.duplicate());
                        Ok(normal_vector)
                    },
                    None => Err(SensorError::ArithmeticOverflow),
                }
            },
        }
    }

    fn on_plane(&self, input_point: &P3) -> (r: Result<bool, SensorError>) {
        match &self.normal {
            Some(x) => {
                let pv = match vector3_from_points(&self.points[0], input_point) {
                    Some(pv) => pv,
                    None => {
                        return Err(SensorError::ArithmeticOverflow);
                    },
                };
                match x.transpose().mul(&pv) {
                    Some(d) => Ok(d.get(0, 0).is_zero()),
                    None => Err(SensorError::ArithmeticOverflow),
                }
            },
            None => Err(SensorError::GeometryNotReady),
        }
    }
}

} // verus!
