//! Where a straight line meets the plane of a sensor.
use vstd::prelude::*;
use crate::config::{P3, Vec3};
use crate::error::SensorError;
use crate::geometry::affine::{affine_apply, affine_defined};
use crate::geometry::plane::{lemma_offset_is_dot, offset_defined, plane_offset};
use crate::geometry::traits::Transform;
use crate::geometry::utils::{
    dot3, normal_defined, normal_of, plane_normal_vector, vector3_from_points,
};
use crate::matrix::Matrix;
use crate::rational::q_div;
use crate::real_matrix::{
    all_representable, column, mat_add, mat_mul, mat_sub, mul_defined, shaped, sum, transpose,
};

verus! {

/// The matrix of one row and one column that holds `t`.
pub open spec fn scalar(t: real) -> Seq<Seq<real>> {
    seq![seq![t]]
}

/// The inner product of two columns.
pub open spec fn inner(n: Seq<Seq<real>>, d: Seq<Seq<real>>) -> real {
    mat_mul(transpose(n), d)[0][0]
}

/// The point `s + t * d` of the line through `s` along `d`.
pub open spec fn ray_point(s: Seq<Seq<real>>, d: Seq<Seq<real>>, t: real) -> Seq<Seq<real>> {
    mat_add(s, mat_mul(d, scalar(t)))
}

/// The step `t` at which the line through `s` along `d` meets the plane
/// through `o` with normal `n`: `n . (o - s) / n . d`.
pub open spec fn ray_parameter(
    s: Seq<Seq<real>>,
    d: Seq<Seq<real>>,
    o: Seq<Seq<real>>,
    n: Seq<Seq<real>>,
) -> real {
    plane_offset(n, s, o) / inner(n, d)
}

/// What `intersect` returns: the point where the line through `s` along `d`
/// meets the plane through `o` with normal `n`. A line along the plane meets
/// it nowhere, or everywhere, and counts as missing the sensor.
pub open spec fn q_intersection(
    s: Seq<Seq<real>>,
    d: Seq<Seq<real>>,
    o: Seq<Seq<real>>,
    n: Seq<Seq<real>>,
) -> Result<Seq<Seq<real>>, SensorError> {
    if !offset_defined(n, s, o) || !mul_defined(transpose(n), d) {
        Err(SensorError::ArithmeticOverflow)
    } else if inner(n, d) == 0real {
        Err(SensorError::OutsideSensorBounds)
    } else {
        match q_div(plane_offset(n, s, o), inner(n, d)) {
            None => Err(SensorError::ArithmeticOverflow),
            Some(t) => if mul_defined(d, scalar(t)) && all_representable(ray_point(s, d, t)) {
                Ok(ray_point(s, d, t))
            } else {
                Err(SensorError::ArithmeticOverflow)
            },
        }
    }
}

/// The plane of a sensor in the global frame: the image of its first corner
/// and the normal through the images of its first three corners. `None` when
/// they cannot be computed in stored numbers.
pub open spec fn q_global_plane(m: Seq<Seq<real>>, corners: Seq<Seq<Seq<real>>>) -> Option<
    (Seq<Seq<real>>, Seq<Seq<real>>),
> {
    let g0 = affine_apply(m, corners[0]);
    let g1 = affine_apply(m, corners[1]);
    let g2 = affine_apply(m, corners[2]);
    if affine_defined(m, corners[0]) && affine_defined(m, corners[1]) && affine_defined(
        m,
        corners[2],
    ) && normal_defined(g0, g1, g2) {
        Some((g0, normal_of(g0, g1, g2)))
    } else {
        None
    }
}

/// The inner product of two columns of three entries, entry by entry.
pub proof fn lemma_inner_is_dot(n: Seq<Seq<real>>, d: Seq<Seq<real>>)
    requires
        shaped(n, 3, 1),
        shaped(d, 3, 1),
    ensures
        inner(n, d) == dot3(n, d),
{
    let t = transpose(n);
    assert(shaped(t, 1, 3));
    let f = |k: int| t[0][k] * column(d, 0)[k];
    assert(mat_mul(t, d)[0][0] == sum(3, f));
    reveal_with_fuel(sum, 4);
    assert(sum(3, f) == f(0) + f(1) + f(2));
    assert(f(0) == n[0][0] * d[0][0]);
    assert(f(1) == n[1][0] * d[1][0]);
    assert(f(2) == n[2][0] * d[2][0]);
}

/// The entries of a point of a line.
pub proof fn lemma_ray_point_entries(s: Seq<Seq<real>>, d: Seq<Seq<real>>, t: real)
    requires
        shaped(s, 3, 1),
        shaped(d, 3, 1),
    ensures
        shaped(ray_point(s, d, t), 3, 1),
        forall|i: int| 0 <= i < 3 ==> #[trigger] ray_point(s, d, t)[i][0] == s[i][0] + d[i][0] * t,
{
    let m = mat_mul(d, scalar(t));
    assert(shaped(scalar(t), 1, 1));
    assert forall|i: int| 0 <= i < 3 implies m[i][0] == d[i][0] * t by {
        let f = |k: int| d[i][k] * column(scalar(t), 0)[k];
        assert(m[i][0] == sum(1, f));
        reveal_with_fuel(sum, 2);
        assert(sum(1, f) == f(0));
        assert(column(scalar(t), 0)[0] == t);
    }
    assert forall|i: int| 0 <= i < 3 implies #[trigger] ray_point(s, d, t)[i][0] == s[i][0]
        + d[i][0] * t by {
        assert(m[i][0] == d[i][0] * t);
    }
}

/// The point that `intersect` returns lies on the plane, and on the line at
/// the step `n . (o - s) / n . d`.
pub proof fn lemma_intersection_on_plane(
    s: Seq<Seq<real>>,
    d: Seq<Seq<real>>,
    o: Seq<Seq<real>>,
    n: Seq<Seq<real>>,
)
    requires
        shaped(s, 3, 1),
        shaped(d, 3, 1),
        shaped(o, 3, 1),
        shaped(n, 3, 1),
        q_intersection(s, d, o, n) is Ok,
    ensures
        q_intersection(s, d, o, n) == Ok::<Seq<Seq<real>>, SensorError>(
            ray_point(s, d, ray_parameter(s, d, o, n)),
        ),
        inner(n, d) != 0real,
        plane_offset(n, o, ray_point(s, d, ray_parameter(s, d, o, n))) == 0real,
{
    let num = plane_offset(n, s, o);
    let den = inner(n, d);
    let t = num / den;
    let p = ray_point(s, d, t);
    lemma_offset_is_dot(n, s, o);
    lemma_inner_is_dot(n, d);
    lemma_ray_point_entries(s, d, t);
    lemma_offset_is_dot(n, o, p);
    let (n0, n1, n2) = (n[0][0], n[1][0], n[2][0]);
    let (a0, a1, a2) = (o[0][0] - s[0][0], o[1][0] - s[1][0], o[2][0] - s[2][0]);
    let (d0, d1, d2) = (d[0][0], d[1][0], d[2][0]);
    let v = mat_sub(p, o);
    assert(p[0][0] == s[0][0] + d0 * t);
    assert(p[1][0] == s[1][0] + d1 * t);
    assert(p[2][0] == s[2][0] + d2 * t);
    assert(v[0][0] == d0 * t - a0);
    assert(v[1][0] == d1 * t - a1);
    assert(v[2][0] == d2 * t - a2);
    assert(n0 * (d0 * t - a0) == t * (n0 * d0) - n0 * a0) by (nonlinear_arith);
    assert(n1 * (d1 * t - a1) == t * (n1 * d1) - n1 * a1) by (nonlinear_arith);
    assert(n2 * (d2 * t - a2) == t * (n2 * d2) - n2 * a2) by (nonlinear_arith);
    let (x0, x1, x2) = (n0 * d0, n1 * d1, n2 * d2);
    assert(t * x0 + t * x1 + t * x2 == t * (x0 + x1 + x2)) by (nonlinear_arith);
    assert(den == x0 + x1 + x2);
    assert(num == n0 * a0 + n1 * a1 + n2 * a2);
    assert(t * den == num) by (nonlinear_arith)
        requires
            t == num / den,
            den != 0real,
    ;
    assert(dot3(n, v) == t * den - num);
}

/// The difference of two points of a line, weighed by `n`, is the gap
/// between their steps times `n * d`.
proof fn lemma_scaled_gap(n: real, d: real, t: real, t0: real, a: real, b: real)
    requires
        a - b == d * t - d * t0,
    ensures
        n * a - n * b == (t - t0) * (n * d),
{
    let gap = t - t0;
    assert(d * t - d * t0 == d * gap) by (nonlinear_arith)
        requires
            gap == t - t0,
    ;
    let e = d * gap;
    assert(n * a - n * b == n * e) by (nonlinear_arith)
        requires
            a - b == e,
    ;
    assert(n * (d * gap) == gap * (n * d)) by (nonlinear_arith);
}

/// A product is zero only if a factor is.
proof fn lemma_factor_is_zero(x: real, y: real)
    requires
        x * y == 0real,
        y != 0real,
    ensures
        x == 0real,
{
    if x != 0real {
        assert(x * y != 0real) by (nonlinear_arith)
            requires
                x != 0real,
                y != 0real,
        ;
    }
}

/// A line meets a plane that it does not run along in one point only: if a
/// point of the line lies on the plane, it is the point that `intersect`
/// returns.
pub proof fn lemma_intersection_is_unique(
    s: Seq<Seq<real>>,
    d: Seq<Seq<real>>,
    o: Seq<Seq<real>>,
    n: Seq<Seq<real>>,
    t0: real,
)
    requires
        shaped(s, 3, 1),
        shaped(d, 3, 1),
        shaped(o, 3, 1),
        shaped(n, 3, 1),
        q_intersection(s, d, o, n) is Ok,
        plane_offset(n, o, ray_point(s, d, t0)) == 0real,
    ensures
        q_intersection(s, d, o, n) == Ok::<Seq<Seq<real>>, SensorError>(ray_point(s, d, t0)),
{
    let t = ray_parameter(s, d, o, n);
    let p = ray_point(s, d, t);
    let target = ray_point(s, d, t0);
    lemma_intersection_on_plane(s, d, o, n);
    lemma_ray_point_entries(s, d, t);
    lemma_ray_point_entries(s, d, t0);
    lemma_offset_is_dot(n, o, p);
    lemma_offset_is_dot(n, o, target);
    lemma_inner_is_dot(n, d);
    let (n0, n1, n2) = (n[0][0], n[1][0], n[2][0]);
    let (d0, d1, d2) = (d[0][0], d[1][0], d[2][0]);
    let vp = mat_sub(p, o);
    let vt = mat_sub(target, o);
    let den = n0 * d0 + n1 * d1 + n2 * d2;
    let gap = t - t0;
    assert(p[0][0] == s[0][0] + d0 * t && target[0][0] == s[0][0] + d0 * t0);
    assert(p[1][0] == s[1][0] + d1 * t && target[1][0] == s[1][0] + d1 * t0);
    assert(p[2][0] == s[2][0] + d2 * t && target[2][0] == s[2][0] + d2 * t0);
    lemma_scaled_gap(n0, d0, t, t0, vp[0][0], vt[0][0]);
    lemma_scaled_gap(n1, d1, t, t0, vp[1][0], vt[1][0]);
    lemma_scaled_gap(n2, d2, t, t0, vp[2][0], vt[2][0]);
    let (x0, x1, x2) = (n0 * d0, n1 * d1, n2 * d2);
    assert(gap * x0 + gap * x1 + gap * x2 == gap * den) by (nonlinear_arith)
        requires
            den == x0 + x1 + x2,
    ;
    assert(dot3(n, vp) - dot3(n, vt) == gap * den);
    lemma_factor_is_zero(gap, den);
    assert(t == t0);
}

/// The point where the line through `start` along `direction` meets the
/// plane through `origin` with the given normal.
///
/// `OutsideSensorBounds` when the line runs along the plane, and
/// `ArithmeticOverflow` when the point cannot be computed in stored numbers.
pub fn intersect(start: &P3, direction: &Vec3, origin: &P3, normal: &Vec3) -> (r: Result<
    P3,
    SensorError,
>)
    ensures
        match r {
            Ok(p) => q_intersection(start@, direction@, origin@, normal@) == Ok::<
                Seq<Seq<real>>,
                SensorError,
            >(p@),
            Err(e) => q_intersection(start@, direction@, origin@, normal@) == Err::<
                Seq<Seq<real>>,
                SensorError,
            >(e),
        },
{
    let to_origin = match vector3_from_points(start, origin) {
        Some(v) => v,
        None => {
            return Err(SensorError::ArithmeticOverflow);
        },
    };
    let nt = normal.transpose();
    let num = match nt.mul(&to_origin) {
        Some(x) => x,
        None => {
            return Err(SensorError::ArithmeticOverflow);
        },
    };
    let den = match nt.mul(direction) {
        Some(x) => x,
        None => {
            return Err(SensorError::ArithmeticOverflow);
        },
    };
    let den0 = den.get(0, 0);
    if den0.is_zero() {
        return Err(SensorError::OutsideSensorBounds);
    }
    let t = match num.get(0, 0).div(&den0) {
        Some(t) => t,
        None => {
            return Err(SensorError::ArithmeticOverflow);
        },
    };
    let tm = Matrix::<1, 1>::filled(t);
    proof {
        assert(tm@[0] =~= seq![t@]);
        assert(tm@ =~= scalar(t@));
    }
    let step = match direction.mul(&tm) {
        Some(x) => x,
        None => {
            return Err(SensorError::ArithmeticOverflow);
        },
    };
    match start.add(&step) {
        Some(p) => Ok(p),
        None => Err(SensorError::ArithmeticOverflow),
    }
}

/// The plane of a sensor in the global frame: the image of its first corner,
/// and the normal through the images of its first three corners.
///
/// `None` exactly when they cannot be computed in stored numbers.
pub fn global_plane<T: Transform>(sensor: &T) -> (r: Option<(P3, Vec3)>)
    ensures
        match r {
            Some((o, n)) => q_global_plane(sensor.transform(), sensor.boundary()) == Some(
                (o@, n@),
            ),
            None => q_global_plane(sensor.transform(), sensor.boundary()) is None,
        },
{
    let g0 = sensor.to_global(sensor.corner(0))?;
    let g1 = sensor.to_global(sensor.corner(1))?;
    let g2 = sensor.to_global(sensor.corner(2))?;
    let n = plane_normal_vector(&g0, &g1, &g2)?;
    Some((g0, n))
}

} // verus!
