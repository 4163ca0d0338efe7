//! The plane of a sensor: the offset of a point from it, and what holds of
//! the corners that span it.
use vstd::prelude::*;
use crate::error::SensorError;
use crate::geometry::utils::{cross, dot3, normal_of};
use crate::inverse::is_zero;
use crate::real_matrix::{
    all_representable, column, mat_mul, mat_sub, mul_defined, shaped, sum, transpose,
};

verus! {

/// The inner product of the normal `n` with the vector from `origin` to `p`.
/// It is zero exactly for the points of the plane through `origin` that `n`
/// is normal to.
pub open spec fn plane_offset(n: Seq<Seq<real>>, origin: Seq<Seq<real>>, p: Seq<Seq<real>>) -> real {
    mat_mul(transpose(n), mat_sub(p, origin))[0][0]
}

/// The offset of `p` from the plane can be computed in stored numbers.
pub open spec fn offset_defined(n: Seq<Seq<real>>, origin: Seq<Seq<real>>, p: Seq<Seq<real>>) -> bool {
    all_representable(mat_sub(p, origin)) && mul_defined(transpose(n), mat_sub(p, origin))
}

/// What `on_plane` returns for a sensor with the cached normal `normal` and
/// the first corner `origin`.
pub open spec fn on_plane_result(
    normal: Option<Seq<Seq<real>>>,
    origin: Seq<Seq<real>>,
    p: Seq<Seq<real>>,
) -> Result<bool, SensorError> {
    match normal {
        None => Err(SensorError::GeometryNotReady),
        Some(n) => if offset_defined(n, origin, p) {
            Ok(plane_offset(n, origin, p) == 0real)
        } else {
            Err(SensorError::ArithmeticOverflow)
        },
    }
}

/// The offset from a plane is the inner product of the normal with the
/// vector from the origin of the plane to the point.
pub proof fn lemma_offset_is_dot(n: Seq<Seq<real>>, origin: Seq<Seq<real>>, p: Seq<Seq<real>>)
    requires
        shaped(n, 3, 1),
        shaped(origin, 3, 1),
        shaped(p, 3, 1),
    ensures
        plane_offset(n, origin, p) == dot3(n, mat_sub(p, origin)),
{
    let v = mat_sub(p, origin);
    let t = transpose(n);
    assert(shaped(v, 3, 1));
    assert(shaped(t, 1, 3));
    let f = |k: int| t[0][k] * column(v, 0)[k];
    assert(mat_mul(t, v)[0][0] == sum(3, f));
    reveal_with_fuel(sum, 4);
    assert(sum(3, f) == f(0) + f(1) + f(2));
    assert(f(0) == n[0][0] * v[0][0]);
    assert(f(1) == n[1][0] * v[1][0]);
    assert(f(2) == n[2][0] * v[2][0]);
}

/// The normal through three points is at right angles to both edges that
/// leave the first of them.
pub proof fn lemma_cross_is_normal(u: Seq<Seq<real>>, w: Seq<Seq<real>>)
    ensures
        dot3(cross(u, w), u) == 0real,
        dot3(cross(u, w), w) == 0real,
{
    let (u0, u1, u2) = (u[0][0], u[1][0], u[2][0]);
    let (w0, w1, w2) = (w[0][0], w[1][0], w[2][0]);
    let n = cross(u, w);
    assert(n[0][0] == u1 * w2 - u2 * w1);
    assert(n[1][0] == u2 * w0 - u0 * w2);
    assert(n[2][0] == u0 * w1 - u1 * w0);
    assert((u1 * w2 - u2 * w1) * u0 + (u2 * w0 - u0 * w2) * u1 + (u0 * w1 - u1 * w0) * u2 == 0real)
        by (nonlinear_arith);
    assert((u1 * w2 - u2 * w1) * w0 + (u2 * w0 - u0 * w2) * w1 + (u0 * w1 - u1 * w0) * w2 == 0real)
        by (nonlinear_arith);
}

/// The fourth corner lies in the plane of the first three.
pub open spec fn flat(corners: Seq<Seq<Seq<real>>>) -> bool {
    plane_offset(normal_of(corners[0], corners[1], corners[2]), corners[0], corners[3]) == 0real
}

/// Corners that share their third coordinate lie in one plane.
pub proof fn lemma_level_corners_are_flat(corners: Seq<Seq<Seq<real>>>)
    requires
        corners.len() == 4,
        forall|i: int| 0 <= i < 4 ==> shaped(#[trigger] corners[i], 3, 1),
        forall|i: int| 0 <= i < 4 ==> (#[trigger] corners[i])[2][0] == corners[0][2][0],
    ensures
        flat(corners),
{
    let n = normal_of(corners[0], corners[1], corners[2]);
    let u = mat_sub(corners[1], corners[0]);
    let w = mat_sub(corners[2], corners[0]);
    let v = mat_sub(corners[3], corners[0]);
    assert(shaped(corners[0], 3, 1) && shaped(corners[1], 3, 1) && shaped(corners[2], 3, 1)
        && shaped(corners[3], 3, 1));
    assert(corners[1][2][0] == corners[0][2][0]);
    assert(corners[2][2][0] == corners[0][2][0]);
    assert(corners[3][2][0] == corners[0][2][0]);
    assert(n =~= cross(u, w));
    lemma_offset_is_dot(n, corners[0], corners[3]);
    let (u1, u0, w1, w0) = (u[1][0], u[0][0], w[1][0], w[0][0]);
    assert(u[2][0] == 0real && w[2][0] == 0real && v[2][0] == 0real);
    assert(n[0][0] == u1 * w[2][0] - u[2][0] * w1);
    assert(n[1][0] == u[2][0] * w0 - u0 * w[2][0]);
    assert(u1 * 0real - 0real * w1 == 0real) by (nonlinear_arith);
    assert(0real * w0 - u0 * 0real == 0real) by (nonlinear_arith);
    assert(n[0][0] == 0real && n[1][0] == 0real);
    assert(0real * v[0][0] + 0real * v[1][0] + n[2][0] * 0real == 0real) by (nonlinear_arith);
}

/// The three corners that span the plane of a sensor lie on it, and so does
/// the fourth corner of a flat sensor: with the normal computed, `on_plane`
/// answers `true` for each of them whenever it can make the test.
pub proof fn lemma_corners_on_plane(corners: Seq<Seq<Seq<real>>>, k: int)
    requires
        corners.len() == 4,
        forall|i: int| 0 <= i < 4 ==> shaped(#[trigger] corners[i], 3, 1),
        0 <= k < 3 || (k == 3 && flat(corners)),
    ensures
        plane_offset(normal_of(corners[0], corners[1], corners[2]), corners[0], corners[k])
            == 0real,
        on_plane_result(
            Some(normal_of(corners[0], corners[1], corners[2])),
            corners[0],
            corners[k],
        ) != Ok::<bool, SensorError>(false),
{
    let n = normal_of(corners[0], corners[1], corners[2]);
    let u = mat_sub(corners[1], corners[0]);
    let w = mat_sub(corners[2], corners[0]);
    assert(shaped(corners[0], 3, 1) && shaped(corners[1], 3, 1) && shaped(corners[2], 3, 1));
    assert(n =~= cross(u, w));
    assert(shaped(n, 3, 1));
    lemma_cross_is_normal(u, w);
    if k < 3 {
        lemma_offset_is_dot(n, corners[0], corners[k]);
        let v = mat_sub(corners[k], corners[0]);
        if k == 0 {
            assert(v[0][0] == 0real && v[1][0] == 0real && v[2][0] == 0real);
            assert(dot3(n, v) == 0real) by (nonlinear_arith)
                requires
                    dot3(n, v) == n[0][0] * v[0][0] + n[1][0] * v[1][0] + n[2][0] * v[2][0],
                    v[0][0] == 0real,
                    v[1][0] == 0real,
                    v[2][0] == 0real,
            ;
        } else if k == 1 {
            assert(v =~= u);
        } else {
            assert(v =~= w);
        }
    }
}

/// A point that is moved off a plane along a normal that is not zero is no
/// longer on the plane: `on_plane` does not answer `true` for it.
pub proof fn lemma_off_plane_along_normal(
    n: Seq<Seq<real>>,
    origin: Seq<Seq<real>>,
    c: Seq<Seq<real>>,
    p: Seq<Seq<real>>,
    t: real,
)
    requires
        shaped(n, 3, 1),
        shaped(origin, 3, 1),
        shaped(c, 3, 1),
        shaped(p, 3, 1),
        plane_offset(n, origin, c) == 0real,
        !is_zero(n),
        t != 0real,
        forall|i: int| 0 <= i < 3 ==> #[trigger] p[i][0] == c[i][0] + t * n[i][0],
    ensures
        plane_offset(n, origin, p) != 0real,
        on_plane_result(Some(n), origin, p) != Ok::<bool, SensorError>(true),
{
    lemma_offset_is_dot(n, origin, c);
    lemma_offset_is_dot(n, origin, p);
    let vc = mat_sub(c, origin);
    let vp = mat_sub(p, origin);
    let (n0, n1, n2) = (n[0][0], n[1][0], n[2][0]);
    assert(p[0][0] == c[0][0] + t * n0);
    assert(p[1][0] == c[1][0] + t * n1);
    assert(p[2][0] == c[2][0] + t * n2);
    assert(vp[0][0] == vc[0][0] + t * n0);
    assert(vp[1][0] == vc[1][0] + t * n1);
    assert(vp[2][0] == vc[2][0] + t * n2);
    assert(n0 != 0real || n1 != 0real || n2 != 0real) by {
        if n0 == 0real && n1 == 0real && n2 == 0real {
            assert forall|i: int, j: int| 0 <= i < n.len() && 0 <= j < n[i].len() implies n[i][j]
                == 0real by {
                assert(j == 0);
            }
        }
    }
    let (s0, s1, s2) = (n0 * n0, n1 * n1, n2 * n2);
    assert(s0 >= 0real && (n0 != 0real ==> s0 > 0real)) by (nonlinear_arith)
        requires
            s0 == n0 * n0,
    ;
    assert(s1 >= 0real && (n1 != 0real ==> s1 > 0real)) by (nonlinear_arith)
        requires
            s1 == n1 * n1,
    ;
    assert(s2 >= 0real && (n2 != 0real ==> s2 > 0real)) by (nonlinear_arith)
        requires
            s2 == n2 * n2,
    ;
    let sq = s0 + s1 + s2;
    assert(sq > 0real);
    assert(n0 * vp[0][0] == n0 * vc[0][0] + t * s0) by (nonlinear_arith)
        requires
            vp[0][0] == vc[0][0] + t * n0,
            s0 == n0 * n0,
    ;
    assert(n1 * vp[1][0] == n1 * vc[1][0] + t * s1) by (nonlinear_arith)
        requires
            vp[1][0] == vc[1][0] + t * n1,
            s1 == n1 * n1,
    ;
    assert(n2 * vp[2][0] == n2 * vc[2][0] + t * s2) by (nonlinear_arith)
        requires
            vp[2][0] == vc[2][0] + t * n2,
            s2 == n2 * n2,
    ;
    assert(t * s0 + t * s1 + t * s2 == t * sq) by (nonlinear_arith)
        requires
            sq == s0 + s1 + s2,
    ;
    assert(dot3(n, vp) == dot3(n, vc) + t * sq);
    assert(t * sq != 0real) by (nonlinear_arith)
        requires
            t != 0real,
            sq > 0real,
    ;
}

} // verus!
