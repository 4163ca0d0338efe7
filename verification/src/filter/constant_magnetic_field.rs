//! The state of a track on the next sensor when a uniform magnetic field
//! bends its way.
//!
//! The direction `t` of the track turns by `dt/ds = k * (t x b)`, for the
//! curvature `k` of the track and the field `b`, while its position moves by
//! `dx/ds = t`. Both are integrated with the classical Runge-Kutta scheme of
//! fourth order in steps of fixed length. The step on which the track passes
//! the plane of the next sensor is cut short where its chord meets the
//! plane.
use vstd::prelude::*;
use crate::config::{P3, Vec3, Vec5};
use crate::error::SensorError;
use crate::filter::prediction::{moved_state, predicted_local, predicted_state};
use crate::geometry::affine::{
    affine_apply, affine_defined, is_affine, lemma_affine_keeps_homogeneous,
};
use crate::geometry::plane::{offset_defined, plane_offset};
use crate::geometry::ray::{
    global_plane, intersect, lemma_intersection_is_unique, lemma_intersection_on_plane,
    lemma_ray_point_entries, q_global_plane, q_intersection, ray_parameter, ray_point, scalar,
};
use crate::geometry::traits::{contains_result, Plane, Transform};
use crate::geometry::utils::{
    column3, cross, cross_defined, cross_product, point, vector3_from_points,
};
use crate::inverse::is_zero;
use crate::matrix::Matrix;
use crate::rational::{q_div, Rational};
use crate::real_matrix::{
    mat_add, mat_mul, mat_sub, q_mat_add, q_mat_mul, q_mat_sub, shaped, transpose,
};

verus! {

/// The column `v` times the number `s`, if it can be stored.
pub open spec fn q_scaled(v: Seq<Seq<real>>, s: real) -> Option<Seq<Seq<real>>> {
    q_mat_mul(v, scalar(s))
}

/// `a + s * b`, if it can be computed in stored numbers.
pub open spec fn q_axpy(a: Seq<Seq<real>>, s: real, b: Seq<Seq<real>>) -> Option<Seq<Seq<real>>> {
    match q_scaled(b, s) {
        Some(sb) => q_mat_add(a, sb),
        None => None,
    }
}

/// The turn `k * (t x b)` of the direction `t` per unit of way, if it can be
/// computed in stored numbers.
pub open spec fn q_turn(t: Seq<Seq<real>>, k: real, b: Seq<Seq<real>>) -> Option<Seq<Seq<real>>> {
    if cross_defined(t, b) {
        q_scaled(cross(t, b), k)
    } else {
        None
    }
}

/// A place on the way of a track: where it is and where it is heading.
pub struct Flight {
    pub position: Seq<Seq<real>>,
    pub direction: Seq<Seq<real>>,
}

/// The directions at the four stages of one step of length `h`.
pub open spec fn q_stages(t: Seq<Seq<real>>, k: real, b: Seq<Seq<real>>, h: real) -> Option<
    (Seq<Seq<real>>, Seq<Seq<real>>, Seq<Seq<real>>, Seq<Seq<real>>),
> {
    match q_div(h, 2real) {
        None => None,
        Some(half) => match q_turn(t, k, b) {
            None => None,
            Some(k1) => match q_axpy(t, half, k1) {
                None => None,
                Some(t2) => match q_turn(t2, k, b) {
                    None => None,
                    Some(k2) => match q_axpy(t, half, k2) {
                        None => None,
                        Some(t3) => match q_turn(t3, k, b) {
                            None => None,
                            Some(k3) => match q_axpy(t, h, k3) {
                                None => None,
                                Some(t4) => Some((t, t2, t3, t4)),
                            },
                        },
                    },
                },
            },
        },
    }
}

/// The weighted sum `a + 2 * b + 2 * c + d` of four stages, added up from
/// the left.
pub open spec fn q_weighted(
    a: Seq<Seq<real>>,
    b: Seq<Seq<real>>,
    c: Seq<Seq<real>>,
    d: Seq<Seq<real>>,
) -> Option<Seq<Seq<real>>> {
    match q_mat_add(a, b) {
        None => None,
        Some(s1) => match q_mat_add(s1, b) {
            None => None,
            Some(s2) => match q_mat_add(s2, c) {
                None => None,
                Some(s3) => match q_mat_add(s3, c) {
                    None => None,
                    Some(s4) => q_mat_add(s4, d),
                },
            },
        },
    }
}

/// One step of length `h` along the bent way: the position moves by a sixth
/// of `h` times the weighted sum of the directions of the four stages, and
/// the direction by a sixth of `h` times the weighted sum of their turns.
#[verifier::opaque]
pub open spec fn q_step(from: Flight, k: real, b: Seq<Seq<real>>, h: real) -> Option<Flight> {
    match (q_stages(from.direction, k, b, h), q_div(h, 6real)) {
        (Some((t1, t2, t3, t4)), Some(sixth)) => match (
            q_turn(t1, k, b),
            q_turn(t2, k, b),
            q_turn(t3, k, b),
            q_turn(t4, k, b),
        ) {
            (Some(k1), Some(k2), Some(k3), Some(k4)) => match (
                q_weighted(t1, t2, t3, t4),
                q_weighted(k1, k2, k3, k4),
            ) {
                (Some(ts), Some(ks)) => match (
                    q_axpy(from.position, sixth, ts),
                    q_axpy(from.direction, sixth, ks),
                ) {
                    (Some(x), Some(t)) => Some(Flight { position: x, direction: t }),
                    _ => None,
                },
                _ => None,
            },
            _ => None,
        },
        _ => None,
    }
}

/// The offset of `p` from the plane through `o` with normal `n`, if it can
/// be computed in stored numbers.
pub open spec fn q_offset(n: Seq<Seq<real>>, o: Seq<Seq<real>>, p: Seq<Seq<real>>) -> Option<real> {
    if offset_defined(n, o, p) {
        Some(plane_offset(n, o, p))
    } else {
        None
    }
}

/// The plane lies between two points with these offsets, or through one of
/// them.
pub open spec fn crossed(a: real, b: real) -> bool {
    (a <= 0real && b >= 0real) || (a >= 0real && b <= 0real)
}

/// Where a bent track meets the plane through `o` with normal `n`: steps of
/// length `h` are taken until one passes the plane, and the chord of that
/// step is cut with the plane. A track that has not passed the plane after
/// `steps` steps counts as missing the sensor.
pub open spec fn q_flight(
    from: Flight,
    k: real,
    b: Seq<Seq<real>>,
    h: real,
    o: Seq<Seq<real>>,
    n: Seq<Seq<real>>,
    steps: nat,
) -> Result<Seq<Seq<real>>, SensorError>
    decreases steps,
{
    if steps == 0 {
        Err(SensorError::OutsideSensorBounds)
    } else {
        match q_step(from, k, b, h) {
            None => Err(SensorError::ArithmeticOverflow),
            Some(to) => match (q_offset(n, o, from.position), q_offset(n, o, to.position)) {
                (Some(before), Some(after)) => if crossed(before, after) {
                    match q_mat_sub(to.position, from.position) {
                        None => Err(SensorError::ArithmeticOverflow),
                        Some(chord) => q_intersection(from.position, chord, o, n),
                    }
                } else {
                    q_flight(to, k, b, h, o, n, (steps - 1) as nat)
                },
                _ => Err(SensorError::ArithmeticOverflow),
            },
        }
    }
}

/// Where a bent track meets the next sensor, in the local frame of that
/// sensor.
pub open spec fn curved_local<T: Transform>(
    start: &T,
    end: &T,
    x: Seq<Seq<real>>,
    direction: Seq<Seq<real>>,
    field: Seq<Seq<real>>,
    h: real,
    steps: nat,
) -> Result<Seq<Seq<real>>, SensorError> {
    let hit = column3(x[0][0], x[1][0], 0real);
    if !affine_defined(start.transform(), hit) {
        Err(SensorError::ArithmeticOverflow)
    } else {
        match q_global_plane(end.transform(), end.boundary()) {
            None => Err(SensorError::ArithmeticOverflow),
            Some((origin, normal)) => match q_flight(
                Flight { position: affine_apply(start.transform(), hit), direction: direction },
                x[4][0],
                field,
                h,
                origin,
                normal,
                steps,
            ) {
                Err(e) => Err(e),
                Ok(g) => if affine_defined(end.inverse_transform(), g) {
                    Ok(affine_apply(end.inverse_transform(), g))
                } else {
                    Err(SensorError::ArithmeticOverflow)
                },
            },
        }
    }
}

/// What `curved_state_vector` returns: the state moved to the point where
/// the bent track meets the next sensor, if that point lies on the sensor.
pub open spec fn curved_state<T: Transform>(
    start: &T,
    end: &T,
    x: Seq<Seq<real>>,
    direction: Seq<Seq<real>>,
    field: Seq<Seq<real>>,
    h: real,
    steps: nat,
) -> Result<Seq<Seq<real>>, SensorError> {
    match curved_local(start, end, x, direction, field, h, steps) {
        Err(e) => Err(e),
        Ok(l) => match contains_result(end.normal(), end.boundary(), l) {
            Err(e) => Err(e),
            Ok(false) => Err(SensorError::OutsideSensorBounds),
            Ok(true) => Ok(moved_state(x, l)),
        },
    }
}

/// Without a field a step leaves the direction as it is and moves the
/// position straight along it.
pub proof fn lemma_no_field_steps_straight(from: Flight, k: real, b: Seq<Seq<real>>, h: real)
    requires
        shaped(from.position, 3, 1),
        shaped(from.direction, 3, 1),
        shaped(b, 3, 1),
        is_zero(b),
        q_step(from, k, b, h) is Some,
    ensures
        q_step(from, k, b, h)->Some_0.direction == from.direction,
        q_step(from, k, b, h)->Some_0.position == ray_point(from.position, from.direction, h),
{
    reveal(q_step);
    let t = from.direction;
    let x = from.position;
    let half = h / 2real;
    let sixth = h / 6real;
    let none = column3(0real, 0real, 0real);
    assert(b[0][0] == 0real && b[1][0] == 0real && b[2][0] == 0real);
    lemma_no_field_no_turn(t, k, b);
    let k1 = q_turn(t, k, b)->Some_0;
    lemma_stage_stays(t, half, k1);
    lemma_stage_stays(t, h, k1);
    let (t1, t2, t3, t4) = q_stages(t, k, b, h)->Some_0;
    assert(t1 == t && t2 == t && t3 == t && t4 == t);
    let ts = q_weighted(t, t, t, t)->Some_0;
    let ks = q_weighted(k1, k1, k1, k1)->Some_0;
    assert(ks =~= k1) by {
        assert forall|i: int| 0 <= i < 3 implies #[trigger] ks[i] =~= k1[i] by {
            assert(k1[i][0] == 0real);
        }
    }
    lemma_stage_stays(t, sixth, ks);
    lemma_ray_point_entries(x, ts, sixth);
    lemma_ray_point_entries(x, t, h);
    let moved = mat_add(x, mat_mul(ts, scalar(sixth)));
    let want = ray_point(x, t, h);
    assert(moved =~= want) by {
        assert forall|i: int| 0 <= i < 3 implies #[trigger] moved[i] =~= want[i] by {
            let ti = t[i][0];
            assert(ts[i][0] == ti + ti + ti + ti + ti + ti);
            assert(moved[i][0] == x[i][0] + ts[i][0] * sixth);
            assert((ti + ti + ti + ti + ti + ti) * (h / 6real) == ti * h) by (nonlinear_arith);
        }
    }
}

/// Without a field the direction does not turn.
proof fn lemma_no_field_no_turn(t: Seq<Seq<real>>, k: real, b: Seq<Seq<real>>)
    requires
        shaped(t, 3, 1),
        shaped(b, 3, 1),
        is_zero(b),
    ensures
        q_turn(t, k, b) matches Some(turn) ==> shaped(turn, 3, 1) && is_zero(turn),
{
    assert(b[0][0] == 0real && b[1][0] == 0real && b[2][0] == 0real);
    let c = cross(t, b);
    let (t0, t1, t2) = (t[0][0], t[1][0], t[2][0]);
    assert(t1 * 0real - t2 * 0real == 0real) by (nonlinear_arith);
    assert(t2 * 0real - t0 * 0real == 0real) by (nonlinear_arith);
    assert(t0 * 0real - t1 * 0real == 0real) by (nonlinear_arith);
    assert(c[0][0] == 0real && c[1][0] == 0real && c[2][0] == 0real);
    assert(shaped(c, 3, 1));
    lemma_ray_point_entries(c, c, k);
    let turn = mat_mul(c, scalar(k));
    assert forall|i: int, j: int| 0 <= i < turn.len() && 0 <= j < turn[i].len() implies turn[i][j]
        == 0real by {
        assert(ray_point(c, c, k)[i][0] == c[i][0] + c[i][0] * k);
        assert(turn[i][0] == ray_point(c, c, k)[i][0] - c[i][0]);
        assert(0real * k == 0real) by (nonlinear_arith);
    }
}

/// A stage that is moved by a turn of zero stays where it is.
proof fn lemma_stage_stays(t: Seq<Seq<real>>, s: real, turn: Seq<Seq<real>>)
    requires
        shaped(t, 3, 1),
        shaped(turn, 3, 1),
        is_zero(turn),
    ensures
        mat_add(t, mat_mul(turn, scalar(s))) == t,
{
    lemma_ray_point_entries(t, turn, s);
    let moved = ray_point(t, turn, s);
    assert forall|i: int| 0 <= i < 3 implies #[trigger] moved[i] =~= t[i] by {
        assert(turn[i][0] == 0real);
        assert(moved[i][0] == t[i][0] + turn[i][0] * s);
        assert(0real * s == 0real) by (nonlinear_arith);
    }
    assert(moved =~= t);
}

/// Without a field a track flies straight: the point where it is found to
/// meet the plane lies on the line that it set out on, at the step that is
/// returned, and on the plane.
pub proof fn lemma_no_field_flies_straight(
    from: Flight,
    k: real,
    b: Seq<Seq<real>>,
    h: real,
    o: Seq<Seq<real>>,
    n: Seq<Seq<real>>,
    steps: nat,
) -> (way: real)
    requires
        shaped(from.position, 3, 1),
        shaped(from.direction, 3, 1),
        shaped(b, 3, 1),
        shaped(o, 3, 1),
        shaped(n, 3, 1),
        is_zero(b),
        q_flight(from, k, b, h, o, n, steps) is Ok,
    ensures
        q_flight(from, k, b, h, o, n, steps)->Ok_0 == ray_point(
            from.position,
            from.direction,
            way,
        ),
        plane_offset(n, o, q_flight(from, k, b, h, o, n, steps)->Ok_0) == 0real,
    decreases steps,
{
    let x = from.position;
    let t = from.direction;
    lemma_no_field_steps_straight(from, k, b, h);
    let to = q_step(from, k, b, h)->Some_0;
    lemma_ray_point_entries(x, t, h);
    let before = q_offset(n, o, x)->Some_0;
    let after = q_offset(n, o, to.position)->Some_0;
    if crossed(before, after) {
        let chord = mat_sub(to.position, x);
        assert(shaped(chord, 3, 1));
        lemma_intersection_on_plane(x, chord, o, n);
        let s = ray_parameter(x, chord, o, n);
        let p = ray_point(x, chord, s);
        let way = h * s;
        lemma_ray_point_entries(x, chord, s);
        lemma_ray_point_entries(x, t, way);
        let line = ray_point(x, t, way);
        assert(p =~= line) by {
            assert forall|i: int| 0 <= i < 3 implies #[trigger] p[i] =~= line[i] by {
                let ti = t[i][0];
                assert(chord[i][0] == (x[i][0] + ti * h) - x[i][0]);
                assert((ti * h) * s == ti * (h * s)) by (nonlinear_arith);
            }
        }
        way
    } else {
        let rest = lemma_no_field_flies_straight(to, k, b, h, o, n, (steps - 1) as nat);
        let p = q_flight(from, k, b, h, o, n, steps)->Ok_0;
        let way = h + rest;
        lemma_ray_point_entries(to.position, t, rest);
        lemma_ray_point_entries(x, t, way);
        let line = ray_point(x, t, way);
        assert(p =~= line) by {
            assert forall|i: int| 0 <= i < 3 implies #[trigger] p[i] =~= line[i] by {
                let ti = t[i][0];
                assert(p[i][0] == (x[i][0] + ti * h) + ti * rest);
                assert(ti * h + ti * rest == ti * (h + rest)) by (nonlinear_arith);
            }
        }
        way
    }
}

/// Without a field the bent track is the straight one: where both
/// predictions find the point on the next sensor, they find the same point,
/// and so return the same state.
pub proof fn lemma_no_field_is_straight<T: Transform>(
    start: &T,
    end: &T,
    x: Seq<Seq<real>>,
    direction: Seq<Seq<real>>,
    field: Seq<Seq<real>>,
    h: real,
    steps: nat,
)
    requires
        shaped(x, 5, 1),
        shaped(direction, 3, 1),
        shaped(field, 3, 1),
        is_zero(field),
        is_affine(start.transform()),
        is_affine(end.transform()),
        forall|i: int| 0 <= i < 3 ==> shaped(#[trigger] end.boundary()[i], 3, 1),
        curved_local(start, end, x, direction, field, h, steps) is Ok,
        predicted_local(start, end, x, direction) is Ok,
    ensures
        curved_local(start, end, x, direction, field, h, steps) == predicted_local(
            start,
            end,
            x,
            direction,
        ),
        curved_state(start, end, x, direction, field, h, steps) == predicted_state(
            start,
            end,
            x,
            direction,
        ),
{
    let hit = column3(x[0][0], x[1][0], 0real);
    assert(shaped(hit, 3, 1));
    let from = affine_apply(start.transform(), hit);
    lemma_affine_keeps_homogeneous(start.transform(), hit);
    let bd = end.boundary();
    assert(shaped(bd[0], 3, 1) && shaped(bd[1], 3, 1) && shaped(bd[2], 3, 1));
    lemma_affine_keeps_homogeneous(end.transform(), bd[0]);
    lemma_affine_keeps_homogeneous(end.transform(), bd[1]);
    lemma_affine_keeps_homogeneous(end.transform(), bd[2]);
    let plane = q_global_plane(end.transform(), end.boundary())->Some_0;
    assert(shaped(plane.0, 3, 1));
    assert(shaped(plane.1, 3, 1));
    let flight = Flight { position: from, direction: direction };
    let way = lemma_no_field_flies_straight(flight, x[4][0], field, h, plane.0, plane.1, steps);
    lemma_intersection_is_unique(from, direction, plane.0, plane.1, way);
}

/// The matrix of one row and one column that holds `s`.
fn one_by_one(s: &Rational) -> (m: Matrix<1, 1>)
    ensures
        m@ == scalar(s@),
{
    let m = Matrix::<1, 1>::filled(*s);
    proof {
        assert(m@[0] =~= seq![s@]);
        assert(m@ =~= scalar(s@));
    }
    m
}

/// `a + s * b`.
fn axpy(a: &Vec3, s: &Rational, b: &Vec3) -> (r: Option<Vec3>)
    ensures
        match r {
            Some(x) => q_axpy(a@, s@, b@) == Some(x@),
            None => q_axpy(a@, s@, b@) is None,
        },
{
    let sb = b.mul(&one_by_one(s))?;
    a.add(&sb)
}

/// The turn `k * (t x b)` of the direction per unit of way.
fn turn(t: &Vec3, k: &Rational, b: &Vec3) -> (r: Option<Vec3>)
    ensures
        match r {
            Some(x) => q_turn(t@, k@, b@) == Some(x@),
            None => q_turn(t@, k@, b@) is None,
        },
{
    let c = cross_product(t, b)?;
    c.mul(&one_by_one(k))
}

/// `a + 2 * b + 2 * c + d`.
fn weighted(a: &Vec3, b: &Vec3, c: &Vec3, d: &Vec3) -> (r: Option<Vec3>)
    ensures
        match r {
            Some(x) => q_weighted(a@, b@, c@, d@) == Some(x@),
            None => q_weighted(a@, b@, c@, d@) is None,
        },
{
    let s1 = a.add(b)?;
    let s2 = s1.add(b)?;
    let s3 = s2.add(c)?;
    let s4 = s3.add(c)?;
    s4.add(d)
}

/// One step of the fourth-order scheme: the position and the direction
/// after a way of length `h`.
///
/// `None` exactly when a number on the way cannot be stored.
pub fn runge_kutta_step(position: &P3, direction: &Vec3, k: &Rational, field: &Vec3, h: &Rational) -> (r:
    Option<(P3, Vec3)>)
    ensures
        match r {
            Some((x, t)) => q_step(
                Flight { position: position@, direction: direction@ },
                k@,
                field@,
                h@,
            ) == Some(Flight { position: x@, direction: t@ }),
            None => q_step(Flight { position: position@, direction: direction@ }, k@, field@, h@)
                is None,
        },
{
    reveal(q_step);
    let two = Rational::from_int(2);
    let six = Rational::from_int(6);
    let half = h.div(&two)?;
    let k1 = turn(direction, k, field)?;
    let t2 = axpy(direction, &half, &k1)?;
    let k2 = turn(&t2, k, field)?;
    let t3 = axpy(direction, &half, &k2)?;
    let k3 = turn(&t3, k, field)?;
    let t4 = axpy(direction, h, &k3)?;
    let sixth = h.div(&six)?;
    let k4 = turn(&t4, k, field)?;
    let ts = weighted(direction, &t2, &t3, &t4)?;
    let ks = weighted(&k1, &k2, &k3, &k4)?;
    let x = axpy(position, &sixth, &ts)?;
    let t = axpy(direction, &sixth, &ks)?;
    Some((x, t))
}

/// The offset of `p` from the plane through `origin` with the given normal.
fn offset(normal: &Vec3, origin: &P3, p: &P3) -> (r: Option<Rational>)
    ensures
        match r {
            Some(x) => q_offset(normal@, origin@, p@) == Some(x@),
            None => q_offset(normal@, origin@, p@) is None,
        },
{
    let v = vector3_from_points(origin, p)?;
    let d = normal.transpose().mul(&v)?;
    Some(d.get(0, 0))
}

/// The plane lies between two points with these offsets, or through one of
/// them.
fn has_crossed(a: &Rational, b: &Rational) -> (r: bool)
    ensures
        r == crossed(a@, b@),
{
    let zero = Rational::zero();
    (a.le(&zero) && zero.le(b)) || (zero.le(a) && b.le(&zero))
}

/// Where a bent track meets a plane.
///
/// The track leaves `position` along `direction` with curvature `k` in the
/// field `field`, and is followed in steps of length `h`. The chord of the
/// first step that passes the plane through `origin` with the given normal
/// is cut with the plane.
///
/// `OutsideSensorBounds` when the plane has not been passed after `steps`
/// steps, or the chord of the step runs along it; `ArithmeticOverflow` when
/// a number on the way cannot be stored.
pub fn fly(
    position: P3,
    direction: Vec3,
    k: &Rational,
    field: &Vec3,
    h: &Rational,
    origin: &P3,
    normal: &Vec3,
    steps: usize,
) -> (r: Result<P3, SensorError>)
    ensures
        match r {
            Ok(p) => q_flight(
                Flight { position: position@, direction: direction@ },
                k@,
                field@,
                h@,
                origin@,
                normal@,
                steps as nat,
            ) == Ok::<Seq<Seq<real>>, SensorError>(p@),
            Err(e) => q_flight(
                Flight { position: position@, direction: direction@ },
                k@,
                field@,
                h@,
                origin@,
                normal@,
                steps as nat,
            ) == Err::<Seq<Seq<real>>, SensorError>(e),
        },
{
    let ghost start = Flight { position: position@, direction: direction@ };
    let mut x = position;
    let mut t = direction;
    let mut left: usize = steps;
    while left > 0
        invariant
            start == (Flight { position: position@, direction: direction@ }),
            q_flight(start, k@, field@, h@, origin@, normal@, steps as nat) == q_flight(
                Flight { position: x@, direction: t@ },
                k@,
                field@,
                h@,
                origin@,
                normal@,
                left as nat,
            ),
        decreases left,
    {
        let (x2, t2) = match runge_kutta_step(&x, &t, k, field, h) {
            Some(next) => next,
            None => {
                return Err(SensorError::ArithmeticOverflow);
            },
        };
        let before = match offset(normal, origin, &x) {
            Some(o) => o,
            None => {
                return Err(SensorError::ArithmeticOverflow);
            },
        };
        let after = match offset(normal, origin, &x2) {
            Some(o) => o,
            None => {
                return Err(SensorError::ArithmeticOverflow);
            },
        };
        if has_crossed(&before, &after) {
            let chord = match vector3_from_points(&x, &x2) {
                Some(c) => c,
                None => {
                    return Err(SensorError::ArithmeticOverflow);
                },
            };
            return intersect(&x, &chord, origin, normal);
        }
        x = x2;
        t = t2;
        left = left - 1;
    }
    Err(SensorError::OutsideSensorBounds)
}

/// The state of a bent track on the next sensor.
///
/// The hit of `prev_filt_state_vec` on `start_sensor` is carried to the
/// global frame. From there the track is followed along `direction`, bent by
/// `field` according to the curvature that the state holds, in at most
/// `steps` steps of length `step`, to where it meets the plane of
/// `end_sensor`. The point found is carried to the local frame of
/// `end_sensor`. The state returned has the two local coordinates of that
/// point; its angles and its curvature are those of the state given.
///
/// The track is given up with `OutsideSensorBounds` when it does not reach
/// the plane or meets it off the sensor, with `GeometryNotReady` when the
/// normal of `end_sensor` has not been computed, and with
/// `ArithmeticOverflow` when a number on the way cannot be stored.
pub fn curved_state_vector<T: Transform + Plane>(
    start_sensor: &T,
    end_sensor: &T,
    prev_filt_state_vec: &Vec5,
    direction: &Vec3,
    field: &Vec3,
    step: &Rational,
    steps: usize,
) -> (r: Result<Vec5, SensorError>)
    ensures
        match r {
            Ok(x) => curved_state(
                start_sensor,
                end_sensor,
                prev_filt_state_vec@,
                direction@,
                field@,
                step@,
                steps as nat,
            ) == Ok::<Seq<Seq<real>>, SensorError>(x@),
            Err(e) => curved_state(
                start_sensor,
                end_sensor,
                prev_filt_state_vec@,
                direction@,
                field@,
                step@,
                steps as nat,
            ) == Err::<Seq<Seq<real>>, SensorError>(e),
        },
{
    let start_local_point = point(
        prev_filt_state_vec.get(0, 0),
        prev_filt_state_vec.get(1, 0),
        Rational::zero(),
    );
    let start_global_point = match start_sensor.to_global(start_local_point) {
        Some(p) => p,
        None => {
            return Err(SensorError::ArithmeticOverflow);
        },
    };
    let (origin, normal) = match global_plane(end_sensor) {
        Some(plane) => plane,
        None => {
            return Err(SensorError::ArithmeticOverflow);
        },
    };
    let curvature = prev_filt_state_vec.get(4, 0);
    let global_pred_point = fly(
        start_global_point,
        direction.duplicate(),
        &curvature,
        field,
        step,
        &origin,
        &normal,
        steps,
    )?;
    let local_pred_point = match end_sensor.to_local(global_pred_point) {
        Some(p) => p,
        None => {
            return Err(SensorError::ArithmeticOverflow);
        },
    };
    if end_sensor.contains_from_local(&local_pred_point)? {
        local_pred_point.shape();
        let new_state_vec = prev_filt_state_vec.with_entry(0, 0, local_pred_point.get(0, 0));
        let new_state_vec = new_state_vec.with_entry(1, 0, local_pred_point.get(1, 0));
        Ok(new_state_vec)
    } else {
        Err(SensorError::OutsideSensorBounds)
    }
}

} // verus!
