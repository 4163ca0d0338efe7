//! Extrapolation of a track state and its covariance, and the residuals of a
//! prediction against a hit.
use vstd::prelude::*;
use crate::config::{Mat2, Mat2x5, Mat5, Vec2, Vec3, Vec5};
use crate::error::SensorError;
use crate::geometry::affine::{
    affine_apply, affine_defined, is_affine, lemma_affine_keeps_homogeneous,
    lemma_affine_maps_are_inverse,
};
use crate::geometry::plane::{offset_defined, plane_offset};
use crate::geometry::ray::{
    global_plane, intersect, lemma_intersection_is_unique, q_global_plane, q_intersection,
    ray_point,
};
use crate::geometry::traits::{contains_result, Plane, Transform};
use crate::geometry::utils::{column3, inside, inside_defined, point};
use crate::inverse::inverse_pair;
use crate::rational::Rational;
use crate::real_matrix::{
    all_representable, lemma_mul_assoc, lemma_mul_shape, lemma_symmetric_transpose,
    lemma_transpose_involutive, lemma_transpose_mul, lemma_transpose_shape, mat_add, mat_mul,
    mat_sub, mul_defined, shaped, symmetric, transpose,
};

verus! {

/// The matrix `j * c * jᵗ`: the covariance `c` carried along by the linear
/// map `j`.
pub open spec fn congruence(j: Seq<Seq<real>>, c: Seq<Seq<real>>) -> Seq<Seq<real>> {
    mat_mul(mat_mul(j, c), transpose(j))
}

/// Both products of `j * c * jᵗ` can be computed in stored numbers.
pub open spec fn congruence_defined(j: Seq<Seq<real>>, c: Seq<Seq<real>>) -> bool {
    mul_defined(j, c) && mul_defined(mat_mul(j, c), transpose(j))
}

/// The covariance of a residual: `v + h * c * hᵗ`.
pub open spec fn residual_covariance(
    v: Seq<Seq<real>>,
    h: Seq<Seq<real>>,
    c: Seq<Seq<real>>,
) -> Seq<Seq<real>> {
    mat_add(v, congruence(h, c))
}

/// The residual of a hit `m` against a state `x` seen through `h`:
/// `m - h * x`.
pub open spec fn residual(m: Seq<Seq<real>>, h: Seq<Seq<real>>, x: Seq<Seq<real>>) -> Seq<
    Seq<real>,
> {
    mat_sub(m, mat_mul(h, x))
}

/// Extrapolates a state vector: `jacobian * prior_state`.
///
/// `None` exactly when the product cannot be computed in stored numbers.
pub fn state_vector(jacobian: &Mat5, prior_state: &Vec5) -> (r: Option<Vec5>)
    ensures
        match r {
            Some(x) => x@ == mat_mul(jacobian@, prior_state@) && mul_defined(
                jacobian@,
                prior_state@,
            ),
            None => !mul_defined(jacobian@, prior_state@),
        },
{
    jacobian.mul(prior_state)
}

/// Extrapolates a covariance matrix: `jacobian * previous_covariance *
/// jacobianᵗ`. A symmetric covariance gives a symmetric one.
///
/// `None` exactly when one of the two products cannot be computed in stored
/// numbers.
pub fn covariance_matrix(jacobian: &Mat5, previous_covariance: &Mat5) -> (r: Option<Mat5>)
    ensures
        match r {
            Some(c) => c@ == congruence(jacobian@, previous_covariance@) && congruence_defined(
                jacobian@,
                previous_covariance@,
            ),
            None => !congruence_defined(jacobian@, previous_covariance@),
        },
        symmetric(previous_covariance@) ==> (r matches Some(c) ==> symmetric(c@)),
{
    jacobian.shape();
    previous_covariance.shape();
    proof {
        if symmetric(previous_covariance@) {
            lemma_congruence_symmetric(jacobian@, previous_covariance@, 5, 5);
        }
    }
    let jc = jacobian.mul(previous_covariance)?;
    jc.mul(&jacobian.transpose())
}

/// The covariance of the residual of a predicted state: `v + h * c * hᵗ`,
/// for the weight matrix `v` of the hit, the measurement model `h` and the
/// predicted covariance `c`.
///
/// `None` exactly when a product or the sum cannot be computed in stored
/// numbers.
pub fn residual_mat(v: &Mat2, h: &Mat2x5, c: &Mat5) -> (r: Option<Mat2>)
    ensures
        match r {
            Some(s) => s@ == residual_covariance(v@, h@, c@) && congruence_defined(h@, c@)
                && all_representable(residual_covariance(v@, h@, c@)),
            None => !(congruence_defined(h@, c@) && all_representable(
                residual_covariance(v@, h@, c@),
            )),
        },
{
    let hc = h.mul(c)?;
    let hch = hc.mul(&h.transpose())?;
    v.add(&hch)
}

/// The residual of the hit `m_k` against the predicted state:
/// `m_k - h_k * pred_state_vec`.
///
/// `None` exactly when the product or the difference cannot be computed in
/// stored numbers.
pub fn residual_vec(m_k: &Vec2, h_k: &Mat2x5, pred_state_vec: &Vec5) -> (r: Option<Vec2>)
    ensures
        match r {
            Some(d) => d@ == residual(m_k@, h_k@, pred_state_vec@) && mul_defined(
                h_k@,
                pred_state_vec@,
            ) && all_representable(residual(m_k@, h_k@, pred_state_vec@)),
            None => !(mul_defined(h_k@, pred_state_vec@) && all_representable(
                residual(m_k@, h_k@, pred_state_vec@),
            )),
        },
{
    let prod = h_k.mul(pred_state_vec)?;
    m_k.sub(&prod)
}

/// The state `x` with its two local coordinates replaced by those of the
/// local point `l`; the angles and the curvature stay as they are.
pub open spec fn moved_state(x: Seq<Seq<real>>, l: Seq<Seq<real>>) -> Seq<Seq<real>> {
    let first = x.update(0, x[0].update(0, l[0][0]));
    first.update(1, first[1].update(0, l[1][0]))
}

/// Where a straight track meets the next sensor, in the local frame of that
/// sensor: the hit `(x[0], x[1], 0)` on `start` is carried to the global
/// frame, the line through it along `direction` is cut with the plane of
/// `end`, and the point found is carried to the local frame of `end`.
pub open spec fn predicted_local<T: Transform>(
    start: &T,
    end: &T,
    x: Seq<Seq<real>>,
    direction: Seq<Seq<real>>,
) -> Result<Seq<Seq<real>>, SensorError> {
    let hit = column3(x[0][0], x[1][0], 0real);
    if !affine_defined(start.transform(), hit) {
        Err(SensorError::ArithmeticOverflow)
    } else {
        match q_global_plane(end.transform(), end.boundary()) {
            None => Err(SensorError::ArithmeticOverflow),
            Some((origin, normal)) => match q_intersection(
                affine_apply(start.transform(), hit),
                direction,
                origin,
                normal,
            ) {
                Err(e) => Err(e),
                Ok(g) => if affine_defined(end.inverse_transform(), g) {
                    Ok(affine_apply(end.inverse_transform(), g))
                } else {
                    Err(SensorError::ArithmeticOverflow)
                },
            },
        }
    }
}

/// What `linear_state_vector` returns: the state moved to the point where
/// the track meets the next sensor, if that point lies on the sensor.
pub open spec fn predicted_state<T: Transform>(
    start: &T,
    end: &T,
    x: Seq<Seq<real>>,
    direction: Seq<Seq<real>>,
) -> Result<Seq<Seq<real>>, SensorError> {
    match predicted_local(start, end, x, direction) {
        Err(e) => Err(e),
        Ok(l) => match contains_result(end.normal(), end.boundary(), l) {
            Err(e) => Err(e),
            Ok(false) => Err(SensorError::OutsideSensorBounds),
            Ok(true) => Ok(moved_state(x, l)),
        },
    }
}

/// The state of a straight track on the next sensor.
///
/// The hit of `prev_filt_state_vec` on `start_sensor` is carried to the
/// global frame. The line through it along `direction` is cut with the plane
/// of `end_sensor`, and the point found is carried to the local frame of
/// `end_sensor`. The state returned has the two local coordinates of that
/// point; its angles and its curvature are those of the state given, which
/// is right for sensors that share their orientation.
///
/// `direction` need not have unit length. The track is given up with
/// `OutsideSensorBounds` when the line runs along the plane or the point
/// lies off the sensor, with `GeometryNotReady` when the normal of
/// `end_sensor` has not been computed, and with `ArithmeticOverflow` when a
/// number on the way cannot be stored.
pub fn linear_state_vector<T: Transform + Plane>(
    start_sensor: &T,
    end_sensor: &T,
    prev_filt_state_vec: &Vec5,
    direction: &Vec3,
) -> (r: Result<Vec5, SensorError>)
    ensures
        match r {
            Ok(x) => predicted_state(start_sensor, end_sensor, prev_filt_state_vec@, direction@)
                == Ok::<Seq<Seq<real>>, SensorError>(x@),
            Err(e) => predicted_state(start_sensor, end_sensor, prev_filt_state_vec@, direction@)
                == Err::<Seq<Seq<real>>, SensorError>(e),
        },
{
    let start_local_x_hit = prev_filt_state_vec.get(0, 0);
    let start_local_y_hit = prev_filt_state_vec.get(1, 0);
    let start_local_point = point(start_local_x_hit, start_local_y_hit, Rational::zero());
    let start_global_point = match start_sensor.to_global(start_local_point) {
        Some(p) => p,
        None => {
            return Err(SensorError::ArithmeticOverflow);
        },
    };
    let (origin, normal) = match global_plane(end_sensor) {
        Some(plane) => plane,
        None => {
            return Err(SensorError::ArithmeticOverflow);
        },
    };
    let global_pred_point = intersect(&start_global_point, direction, &origin, &normal)?;
    let local_pred_point = match end_sensor.to_local(global_pred_point) {
        Some(p) => p,
        None => {
            return Err(SensorError::ArithmeticOverflow);
        },
    };
    if end_sensor.contains_from_local(&local_pred_point)? {
        local_pred_point.shape();
        let new_state_vec = prev_filt_state_vec.with_entry(0, 0, local_pred_point.get(0, 0));
        let new_state_vec = new_state_vec.with_entry(1, 0, local_pred_point.get(1, 0));
        Ok(new_state_vec)
    } else {
        Err(SensorError::OutsideSensorBounds)
    }
}

/// A straight track aimed at a point of the next sensor arrives there: if
/// the line of the track passes through the place in space of the local
/// point `aim`, which lies on the plane of the sensor, then `aim` is the
/// point that the prediction finds, whenever it finds one. A track aimed at
/// the centre of a sensor is predicted at the centre.
pub proof fn lemma_track_arrives_where_aimed<T: Transform>(
    start: &T,
    end: &T,
    x: Seq<Seq<real>>,
    direction: Seq<Seq<real>>,
    aim: Seq<Seq<real>>,
    t: real,
)
    requires
        shaped(x, 5, 1),
        shaped(direction, 3, 1),
        shaped(aim, 3, 1),
        is_affine(start.transform()),
        is_affine(end.transform()),
        inverse_pair(end.inverse_transform(), end.transform(), 4),
        forall|i: int| 0 <= i < 3 ==> shaped(#[trigger] end.boundary()[i], 3, 1),
        predicted_local(start, end, x, direction) is Ok,
        ({
            let plane = q_global_plane(end.transform(), end.boundary())->Some_0;
            let from = affine_apply(start.transform(), column3(x[0][0], x[1][0], 0real));
            &&& affine_apply(end.transform(), aim) == ray_point(from, direction, t)
            &&& plane_offset(plane.1, plane.0, affine_apply(end.transform(), aim)) == 0real
        }),
    ensures
        predicted_local(start, end, x, direction) == Ok::<Seq<Seq<real>>, SensorError>(aim),
{
    let hit = column3(x[0][0], x[1][0], 0real);
    assert(shaped(hit, 3, 1));
    let from = affine_apply(start.transform(), hit);
    let plane = q_global_plane(end.transform(), end.boundary())->Some_0;
    lemma_affine_keeps_homogeneous(start.transform(), hit);
    let b = end.boundary();
    assert(shaped(b[0], 3, 1) && shaped(b[1], 3, 1) && shaped(b[2], 3, 1));
    lemma_affine_keeps_homogeneous(end.transform(), b[0]);
    lemma_affine_keeps_homogeneous(end.transform(), b[1]);
    lemma_affine_keeps_homogeneous(end.transform(), b[2]);
    assert(shaped(plane.0, 3, 1));
    assert(shaped(plane.1, 3, 1));
    lemma_intersection_is_unique(from, direction, plane.0, plane.1, t);
    lemma_affine_maps_are_inverse(end.transform(), end.inverse_transform(), aim);
}

/// A track that meets the plane of the next sensor outside its boundary is
/// given up: whenever the meeting point can be computed and tested, and it
/// does not lie within the corners, the answer is `OutsideSensorBounds`.
pub proof fn lemma_outside_is_rejected<T: Transform>(
    start: &T,
    end: &T,
    x: Seq<Seq<real>>,
    direction: Seq<Seq<real>>,
)
    requires
        predicted_local(start, end, x, direction) is Ok,
        end.normal() is Some,
        offset_defined(
            end.normal()->Some_0,
            end.boundary()[0],
            predicted_local(start, end, x, direction)->Ok_0,
        ),
        inside_defined(end.boundary(), predicted_local(start, end, x, direction)->Ok_0),
        !inside(end.boundary(), predicted_local(start, end, x, direction)->Ok_0),
    ensures
        predicted_state(start, end, x, direction) == Err::<Seq<Seq<real>>, SensorError>(
            SensorError::OutsideSensorBounds,
        ),
{
}

/// A symmetric covariance stays symmetric when it is carried along by a
/// linear map: for every `j` with `n` columns and every symmetric `c` of size
/// `n`, the matrix `j * c * jᵗ` is symmetric.
pub proof fn lemma_congruence_symmetric(j: Seq<Seq<real>>, c: Seq<Seq<real>>, r: nat, n: nat)
    requires
        shaped(j, r, n),
        shaped(c, n, n),
        r > 0,
        n > 0,
        symmetric(c),
    ensures
        shaped(congruence(j, c), r, r),
        symmetric(congruence(j, c)),
        transpose(congruence(j, c)) == congruence(j, c),
{
    let jt = transpose(j);
    let jc = mat_mul(j, c);
    let m = congruence(j, c);
    lemma_transpose_shape(j, r, n);
    lemma_mul_shape(j, c, r, n, n);
    lemma_mul_shape(jc, jt, r, n, r);
    // (jc * jt)ᵗ == jtᵗ * jcᵗ == j * (cᵗ * jt) == j * (c * jt) == (j * c) * jt
    lemma_transpose_mul(jc, jt, r, n, r);
    lemma_transpose_involutive(j, r, n);
    lemma_transpose_mul(j, c, r, n, n);
    lemma_symmetric_transpose(c, n);
    lemma_mul_assoc(j, c, jt, r, n, n, r);
    assert(transpose(m) == m);
    assert forall|a: int, b: int| 0 <= a < m.len() && 0 <= b < m.len() implies m[a][b] == m[b][a] by {
        assert(transpose(m)[a][b] == m[b][a]);
    }
}

} // verus!
