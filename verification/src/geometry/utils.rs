//! Vector algebra on points: differences, plane normals and the test of a
//! point against a quadrilateral.
use vstd::prelude::*;
use crate::config::{P3, Vec3};
use crate::matrix::Matrix;
use crate::rational::{q_mul, q_sub, Rational};
use crate::real_matrix::{all_representable, mat_sub};

verus! {

/// The column with the three given entries.
pub open spec fn column3(x: real, y: real, z: real) -> Seq<Seq<real>> {
    seq![seq![x], seq![y], seq![z]]
}

/// The determinant `a * d - b * c`.
pub open spec fn det2(a: real, b: real, c: real, d: real) -> real {
    a * d - b * c
}

/// The determinant `a * d - b * c` in stored numbers: both products, then
/// their difference.
pub open spec fn q_det2(a: real, b: real, c: real, d: real) -> Option<real> {
    match (q_mul(a, d), q_mul(b, c)) {
        (Some(x), Some(y)) => q_sub(x, y),
        _ => None,
    }
}

/// The cross product of two columns of three entries.
pub open spec fn cross(a: Seq<Seq<real>>, b: Seq<Seq<real>>) -> Seq<Seq<real>> {
    column3(
        det2(a[1][0], a[2][0], b[1][0], b[2][0]),
        det2(a[2][0], a[0][0], b[2][0], b[0][0]),
        det2(a[0][0], a[1][0], b[0][0], b[1][0]),
    )
}

/// Every entry of the cross product can be computed in stored numbers.
pub open spec fn cross_defined(a: Seq<Seq<real>>, b: Seq<Seq<real>>) -> bool {
    &&& q_det2(a[1][0], a[2][0], b[1][0], b[2][0]) is Some
    &&& q_det2(a[2][0], a[0][0], b[2][0], b[0][0]) is Some
    &&& q_det2(a[0][0], a[1][0], b[0][0], b[1][0]) is Some
}

/// The inner product of two columns of three entries.
pub open spec fn dot3(a: Seq<Seq<real>>, b: Seq<Seq<real>>) -> real {
    a[0][0] * b[0][0] + a[1][0] * b[1][0] + a[2][0] * b[2][0]
}

/// The normal of the plane through three points: `(p1 - p0) x (p2 - p0)`.
/// It is not brought to unit length.
pub open spec fn normal_of(p0: Seq<Seq<real>>, p1: Seq<Seq<real>>, p2: Seq<Seq<real>>) -> Seq<
    Seq<real>,
> {
    cross(mat_sub(p1, p0), mat_sub(p2, p0))
}

/// The normal through three points can be computed in stored numbers.
pub open spec fn normal_defined(
    p0: Seq<Seq<real>>,
    p1: Seq<Seq<real>>,
    p2: Seq<Seq<real>>,
) -> bool {
    &&& all_representable(mat_sub(p1, p0))
    &&& all_representable(mat_sub(p2, p0))
    &&& cross_defined(mat_sub(p1, p0), mat_sub(p2, p0))
}

/// Twice the signed area of the triangle `a`, `b`, `p` in the first two
/// coordinates: positive when `p` lies to the left of the edge from `a` to
/// `b`.
pub open spec fn orientation(a: Seq<Seq<real>>, b: Seq<Seq<real>>, p: Seq<Seq<real>>) -> real {
    det2(b[0][0] - a[0][0], b[1][0] - a[1][0], p[0][0] - a[0][0], p[1][0] - a[1][0])
}

/// The orientation in stored numbers: the four differences, then the
/// determinant.
pub open spec fn q_orientation(a: Seq<Seq<real>>, b: Seq<Seq<real>>, p: Seq<Seq<real>>) -> Option<
    real,
> {
    match (
        q_sub(b[0][0], a[0][0]),
        q_sub(b[1][0], a[1][0]),
        q_sub(p[0][0], a[0][0]),
        q_sub(p[1][0], a[1][0]),
    ) {
        (Some(ux), Some(uy), Some(vx), Some(vy)) => q_det2(ux, uy, vx, vy),
        _ => None,
    }
}

/// Four numbers that are all at least zero, or all at most zero.
pub open spec fn same_side(a: real, b: real, c: real, d: real) -> bool {
    (a >= 0real && b >= 0real && c >= 0real && d >= 0real) || (a <= 0real && b <= 0real && c
        <= 0real && d <= 0real)
}

/// `p` lies, in the first two coordinates, on one side of all four edges of
/// the quadrilateral, or on them. For corners in winding order this is the
/// closed quadrilateral.
pub open spec fn inside(q: Seq<Seq<Seq<real>>>, p: Seq<Seq<real>>) -> bool {
    same_side(
        orientation(q[0], q[1], p),
        orientation(q[1], q[2], p),
        orientation(q[2], q[3], p),
        orientation(q[3], q[0], p),
    )
}

/// The four orientations of `p` against the edges can be computed in stored
/// numbers.
pub open spec fn inside_defined(q: Seq<Seq<Seq<real>>>, p: Seq<Seq<real>>) -> bool {
    &&& q_orientation(q[0], q[1], p) is Some
    &&& q_orientation(q[1], q[2], p) is Some
    &&& q_orientation(q[2], q[3], p) is Some
    &&& q_orientation(q[3], q[0], p) is Some
}

/// The corners `a`, `b`, `c`, `d` turn the same way all around: every corner
/// lies on one side of the edge before it, or on it.
pub open spec fn wound(
    a: Seq<Seq<real>>,
    b: Seq<Seq<real>>,
    c: Seq<Seq<real>>,
    d: Seq<Seq<real>>,
) -> bool {
    same_side(
        orientation(a, b, c),
        orientation(b, c, d),
        orientation(c, d, a),
        orientation(d, a, b),
    )
}

/// The four orientations of the corners can be computed in stored numbers.
pub open spec fn wound_defined(
    a: Seq<Seq<real>>,
    b: Seq<Seq<real>>,
    c: Seq<Seq<real>>,
    d: Seq<Seq<real>>,
) -> bool {
    &&& q_orientation(a, b, c) is Some
    &&& q_orientation(b, c, d) is Some
    &&& q_orientation(c, d, a) is Some
    &&& q_orientation(d, a, b) is Some
}

/// The corners are seen, in stored numbers, to turn the same way all around.
#[verifier::opaque]
pub open spec fn seen_wound(
    a: Seq<Seq<real>>,
    b: Seq<Seq<real>>,
    c: Seq<Seq<real>>,
    d: Seq<Seq<real>>,
) -> bool {
    wound_defined(a, b, c, d) && wound(a, b, c, d)
}

/// The views of four points.
pub open spec fn corners(points: [P3; 4]) -> Seq<Seq<Seq<real>>> {
    seq![points[0]@, points[1]@, points[2]@, points[3]@]
}

/// The order in which `organize_points` leaves the corners: as given when
/// they are wound, else the first of the two other cyclic orders that is
/// wound, else as given.
pub open spec fn organized(q: Seq<Seq<Seq<real>>>) -> Seq<Seq<Seq<real>>> {
    if seen_wound(q[0], q[1], q[2], q[3]) {
        q
    } else if seen_wound(q[0], q[1], q[3], q[2]) {
        seq![q[0], q[1], q[3], q[2]]
    } else if seen_wound(q[0], q[2], q[1], q[3]) {
        seq![q[0], q[2], q[1], q[3]]
    } else {
        q
    }
}

/// The orientation of a triangle does not change when its corners are taken
/// in turn, and a triangle with two equal corners has none.
pub proof fn lemma_orientation_turns(a: Seq<Seq<real>>, b: Seq<Seq<real>>, c: Seq<Seq<real>>)
    ensures
        orientation(b, c, a) == orientation(a, b, c),
        orientation(a, b, a) == 0real,
        orientation(a, b, b) == 0real,
{
    let (ax, ay) = (a[0][0], a[1][0]);
    let (bx, by) = (b[0][0], b[1][0]);
    let (cx, cy) = (c[0][0], c[1][0]);
    assert((cx - bx) * (ay - by) - (cy - by) * (ax - bx) == (bx - ax) * (cy - ay) - (by - ay) * (cx
        - ax)) by (nonlinear_arith);
    assert((bx - ax) * (ay - ay) - (by - ay) * (ax - ax) == 0real) by (nonlinear_arith);
    assert((bx - ax) * (by - ay) - (by - ay) * (bx - ax) == 0real) by (nonlinear_arith);
}

/// The corners of a quadrilateral in winding order lie within it.
pub proof fn lemma_corners_are_inside(
    a: Seq<Seq<real>>,
    b: Seq<Seq<real>>,
    c: Seq<Seq<real>>,
    d: Seq<Seq<real>>,
)
    requires
        wound(a, b, c, d),
    ensures
        inside(seq![a, b, c, d], a),
        inside(seq![a, b, c, d], b),
        inside(seq![a, b, c, d], c),
        inside(seq![a, b, c, d], d),
{
    let q = seq![a, b, c, d];
    assert(q[0] == a && q[1] == b && q[2] == c && q[3] == d);
    lemma_orientation_turns(a, b, c);
    lemma_orientation_turns(b, c, d);
    lemma_orientation_turns(c, d, a);
    lemma_orientation_turns(d, a, b);
    lemma_orientation_turns(a, b, a);
    lemma_orientation_turns(b, c, b);
    lemma_orientation_turns(c, d, c);
    lemma_orientation_turns(d, a, d);
    lemma_orientation_turns(d, a, c);
    lemma_orientation_turns(a, b, d);
}

/// `p` lies strictly inside the triangle `a`, `b`, `c`, in the first two
/// coordinates.
pub open spec fn inside_triangle(
    a: Seq<Seq<real>>,
    b: Seq<Seq<real>>,
    c: Seq<Seq<real>>,
    p: Seq<Seq<real>>,
) -> bool {
    let (x, y, z) = (orientation(a, b, p), orientation(b, c, p), orientation(c, a, p));
    (x > 0real && y > 0real && z > 0real) || (x < 0real && y < 0real && z < 0real)
}

/// The four points are the corners of a convex quadrilateral, in some order:
/// no three of them lie on a line, and none lies inside the triangle of the
/// other three.
pub open spec fn convex_position(
    a: Seq<Seq<real>>,
    b: Seq<Seq<real>>,
    c: Seq<Seq<real>>,
    d: Seq<Seq<real>>,
) -> bool {
    &&& orientation(a, b, c) != 0real
    &&& orientation(a, b, d) != 0real
    &&& orientation(a, c, d) != 0real
    &&& orientation(b, c, d) != 0real
    &&& !inside_triangle(a, b, c, d)
    &&& !inside_triangle(a, b, d, c)
    &&& !inside_triangle(a, c, d, b)
    &&& !inside_triangle(b, c, d, a)
}

/// The orientation of a triangle changes its sign when two corners are
/// exchanged, and the orientations of the four triangles of four points are
/// bound to each other.
pub proof fn lemma_orientation_signs(
    a: Seq<Seq<real>>,
    b: Seq<Seq<real>>,
    c: Seq<Seq<real>>,
    d: Seq<Seq<real>>,
)
    ensures
        orientation(a, c, b) == -orientation(a, b, c),
        orientation(a, b, c) - orientation(a, b, d) + orientation(a, c, d) - orientation(b, c, d)
            == 0real,
{
    let (ax, ay) = (a[0][0], a[1][0]);
    let (bx, by) = (b[0][0], b[1][0]);
    let (cx, cy) = (c[0][0], c[1][0]);
    let (dx, dy) = (d[0][0], d[1][0]);
    assert((cx - ax) * (by - ay) - (cy - ay) * (bx - ax) == -((bx - ax) * (cy - ay) - (by - ay) * (cx
        - ax))) by (nonlinear_arith);
    assert(((bx - ax) * (cy - ay) - (by - ay) * (cx - ax)) - ((bx - ax) * (dy - ay) - (by - ay) * (dx
        - ax)) + ((cx - ax) * (dy - ay) - (cy - ay) * (dx - ax)) - ((cx - bx) * (dy - by) - (cy
        - by) * (dx - bx)) == 0real) by (nonlinear_arith);
}

/// The corners of a convex quadrilateral can be brought into winding order:
/// as they come, or with the last two exchanged, or with the middle two
/// exchanged, they turn the same way all around.
pub proof fn lemma_convex_corners_can_be_wound(
    a: Seq<Seq<real>>,
    b: Seq<Seq<real>>,
    c: Seq<Seq<real>>,
    d: Seq<Seq<real>>,
)
    requires
        convex_position(a, b, c, d),
    ensures
        wound(a, b, c, d) || wound(a, b, d, c) || wound(a, c, b, d),
{
    // the orientations that the three orders ask for are, up to their sign,
    // those of the four triangles, which cannot have any signs they like
    lemma_orientation_signs(a, d, c, b);
    lemma_orientation_signs(b, d, c, a);
    lemma_orientation_signs(c, b, d, a);
    lemma_orientation_signs(c, a, b, d);
    lemma_orientation_signs(d, a, c, b);
    lemma_orientation_signs(d, b, a, c);
    lemma_orientation_signs(a, b, d, c);
    lemma_orientation_signs(a, c, d, b);
    lemma_orientation_signs(b, c, a, d);
}

/// The corners of a convex quadrilateral are left in winding order by
/// `organize_points`, whenever the orientations that it looks at can be
/// computed in stored numbers.
pub proof fn lemma_organized_is_wound(q: Seq<Seq<Seq<real>>>)
    requires
        q.len() == 4,
        convex_position(q[0], q[1], q[2], q[3]),
        wound_defined(q[0], q[1], q[2], q[3]),
        wound_defined(q[0], q[1], q[3], q[2]),
        wound_defined(q[0], q[2], q[1], q[3]),
    ensures
        wound(organized(q)[0], organized(q)[1], organized(q)[2], organized(q)[3]),
{
    reveal(seen_wound);
    lemma_convex_corners_can_be_wound(q[0], q[1], q[2], q[3]);
}

/// The point with the three given coordinates.
pub fn point(x: Rational, y: Rational, z: Rational) -> (p: P3)
    ensures
        p@ == column3(x@, y@, z@),
{
    let mut rows: Vec<Vec<Rational>> = Vec::new();
    let mut r0: Vec<Rational> = Vec::new();
    r0.push(x);
    let mut r1: Vec<Rational> = Vec::new();
    r1.push(y);
    let mut r2: Vec<Rational> = Vec::new();
    r2.push(z);
    rows.push(r0);
    rows.push(r1);
    rows.push(r2);
    proof {
        let e = crate::matrix::entries(rows@);
        assert(e.len() == 3);
        assert(e[0] =~= seq![x@]);
        assert(e[1] =~= seq![y@]);
        assert(e[2] =~= seq![z@]);
        assert(e =~= column3(x@, y@, z@));
    }
    match Matrix::<3, 1>::from_rows(rows) {
        Some(p) => p,
        None => {
            proof {
                assert(false);
            }
            Matrix::<3, 1>::filled(x)
        },
    }
}

/// `a * d - b * c`, or `None` when a product or the difference cannot be
/// stored.
pub fn det2_exact(a: &Rational, b: &Rational, c: &Rational, d: &Rational) -> (r: Option<Rational>)
    ensures
        match r {
            Some(x) => q_det2(a@, b@, c@, d@) == Some(x@) && x@ == det2(a@, b@, c@, d@),
            None => q_det2(a@, b@, c@, d@) is None,
        },
{
    let x = a.mul(d)?;
    let y = b.mul(c)?;
    x.sub(&y)
}

/// The vector from `start` to `end`.
///
/// `None` exactly when a coordinate of it cannot be stored.
pub fn vector3_from_points(start: &P3, end: &P3) -> (r: Option<Vec3>)
    ensures
        match r {
            Some(v) => v@ == mat_sub(end@, start@) && all_representable(mat_sub(end@, start@)),
            None => !all_representable(mat_sub(end@, start@)),
        },
{
    end.sub(start)
}

/// The cross product `a x b`.
///
/// `None` exactly when an entry of it cannot be computed in stored numbers.
pub fn cross_product(a: &Vec3, b: &Vec3) -> (r: Option<Vec3>)
    ensures
        match r {
            Some(n) => n@ == cross(a@, b@) && cross_defined(a@, b@),
            None => !cross_defined(a@, b@),
        },
{
    let (a0, a1, a2) = (a.get(0, 0), a.get(1, 0), a.get(2, 0));
    let (b0, b1, b2) = (b.get(0, 0), b.get(1, 0), b.get(2, 0));
    let x = det2_exact(&a1, &a2, &b1, &b2)?;
    let y = det2_exact(&a2, &a0, &b2, &b0)?;
    let z = det2_exact(&a0, &a1, &b0, &b1)?;
    Some(point(x, y, z))
}

/// The normal of the plane through three points, `(p1 - p0) x (p2 - p0)`,
/// not brought to unit length.
///
/// `None` exactly when it cannot be computed in stored numbers.
pub fn plane_normal_vector(p0: &P3, p1: &P3, p2: &P3) -> (r: Option<Vec3>)
    ensures
        match r {
            Some(n) => n@ == normal_of(p0@, p1@, p2@) && normal_defined(p0@, p1@, p2@),
            None => !normal_defined(p0@, p1@, p2@),
        },
{
    let u = vector3_from_points(p0, p1)?;
    let w = vector3_from_points(p0, p2)?;
    cross_product(&u, &w)
}

/// Twice the signed area of the triangle `a`, `b`, `p` in the first two
/// coordinates.
///
/// `None` exactly when it cannot be computed in stored numbers.
pub fn orientation_exact(a: &P3, b: &P3, p: &P3) -> (r: Option<Rational>)
    ensures
        match r {
            Some(x) => q_orientation(a@, b@, p@) == Some(x@) && x@ == orientation(a@, b@, p@),
            None => q_orientation(a@, b@, p@) is None,
        },
{
    let ux = b.get(0, 0).sub(&a.get(0, 0))?;
    let uy = b.get(1, 0).sub(&a.get(1, 0))?;
    let vx = p.get(0, 0).sub(&a.get(0, 0))?;
    let vy = p.get(1, 0).sub(&a.get(1, 0))?;
    det2_exact(&ux, &uy, &vx, &vy)
}

/// The four numbers are all at least zero, or all at most zero.
fn on_same_side(a: &Rational, b: &Rational, c: &Rational, d: &Rational) -> (r: bool)
    ensures
        r == same_side(a@, b@, c@, d@),
{
    let none_negative = !a.is_negative() && !b.is_negative() && !c.is_negative()
        && !d.is_negative();
    let zero = Rational::zero();
    let none_positive = a.le(&zero) && b.le(&zero) && c.le(&zero) && d.le(&zero);
    none_negative || none_positive
}

/// Whether `point` lies within the quadrilateral with the given corners, in
/// the first two coordinates; the third is not looked at. Points on an edge
/// count as within.
///
/// `None` exactly when an orientation cannot be computed in stored numbers.
pub fn quadrilateral_contains(points: &[P3; 4], point: &P3) -> (r: Option<bool>)
    ensures
        match r {
            Some(b) => b == inside(corners(*points), point@) && inside_defined(
                corners(*points),
                point@,
            ),
            None => !inside_defined(corners(*points), point@),
        },
{
    let o0 = orientation_exact(&points[0], &points[1], point)?;
    let o1 = orientation_exact(&points[1], &points[2], point)?;
    let o2 = orientation_exact(&points[2], &points[3], point)?;
    let o3 = orientation_exact(&points[3], &points[0], point)?;
    Some(on_same_side(&o0, &o1, &o2, &o3))
}

/// Whether the corners, in the given order, turn the same way all around.
/// `false` also when that cannot be computed in stored numbers.
fn is_wound(a: &P3, b: &P3, c: &P3, d: &P3) -> (r: bool)
    ensures
        r == seen_wound(a@, b@, c@, d@),
{
    reveal(seen_wound);
    let o0 = match orientation_exact(a, b, c) {
        Some(x) => x,
        None => {
            return false;
        },
    };
    let o1 = match orientation_exact(b, c, d) {
        Some(x) => x,
        None => {
            return false;
        },
    };
    let o2 = match orientation_exact(c, d, a) {
        Some(x) => x,
        None => {
            return false;
        },
    };
    let o3 = match orientation_exact(d, a, b) {
        Some(x) => x,
        None => {
            return false;
        },
    };
    on_same_side(&o0, &o1, &o2, &o3)
}

/// Brings four corners into winding order.
///
/// Corners that already turn the same way all around are left as they are.
/// Otherwise the two other cyclic orders are tried in turn, and the first
/// that turns the same way is taken. Corners of which no order does, which
/// are not those of a convex quadrilateral, are left as given.
pub fn organize_points(points: [P3; 4]) -> (r: [P3; 4])
    ensures
        corners(r) == organized(corners(points)),
{
    let first = is_wound(&points[0], &points[1], &points[2], &points[3]);
    let second = is_wound(&points[0], &points[1], &points[3], &points[2]);
    let third = is_wound(&points[0], &points[2], &points[1], &points[3]);
    if first {
        points
    } else if second {
        let r = [
            points[0].duplicate(),
            points[1].duplicate(),
            points[3].duplicate(),
            points[2].duplicate(),
        ];
        assert(corners(r) =~= seq![points[0]@, points[1]@, points[3]@, points[2]@]);
        r
    } else if third {
        let r = [
            points[0].duplicate(),
            points[2].duplicate(),
            points[1].duplicate(),
            points[3].duplicate(),
        ];
        assert(corners(r) =~= seq![points[0]@, points[2]@, points[1]@, points[3]@]);
        r
    } else {
        points
    }
}

} // verus!
