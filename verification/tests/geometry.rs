use kalman_rs::config::{Mat4, P3};
use kalman_rs::error::SensorError;
use kalman_rs::geometry::ray::intersect;
use kalman_rs::geometry::traits::{Plane, Transform};
use kalman_rs::geometry::utils::{
    cross_product, organize_points, orientation_exact, plane_normal_vector, point,
    quadrilateral_contains, vector3_from_points,
};
use kalman_rs::matrix::Matrix;
use kalman_rs::rational::Rational;
use kalman_rs::Trapezoid;

fn whole(n: i32) -> Rational {
    Rational::from_int(n)
}

fn ratio(n: i64, d: i64) -> Rational {
    Rational::new(n, d).unwrap()
}

fn p(x: i32, y: i32, z: i32) -> P3 {
    point(whole(x), whole(y), whole(z))
}

fn matrix<const R: usize, const C: usize>(rows: [[i32; C]; R]) -> Matrix<R, C> {
    Matrix::from_rows(rows.iter().map(|r| r.iter().map(|x| whole(*x)).collect()).collect()).unwrap()
}

fn trapezoid_points() -> [P3; 4] {
    [p(0, 0, 0), p(5, 1, 0), p(5, 9, 0), p(0, 10, 0)]
}

fn shifted(dx: i32, dy: i32, dz: i32) -> Mat4 {
    matrix([[1, 0, 0, dx], [0, 1, 0, dy], [0, 0, 1, dz], [0, 0, 0, 1]])
}

#[test]
fn vector_between_points() {
    let v = vector3_from_points(&p(1, 2, 3), &p(4, 6, 8)).unwrap();
    assert!(v.eq_value(&p(3, 4, 5)));
}

#[test]
fn cross_product_of_the_axes() {
    assert!(cross_product(&p(1, 0, 0), &p(0, 1, 0)).unwrap().eq_value(&p(0, 0, 1)));
    assert!(cross_product(&p(0, 1, 0), &p(1, 0, 0)).unwrap().eq_value(&p(0, 0, -1)));
    assert!(cross_product(&p(1, 2, 3), &p(4, 5, 6)).unwrap().eq_value(&p(-3, 6, -3)));
    assert!(cross_product(&p(1, 2, 3), &p(2, 4, 6)).unwrap().eq_value(&p(0, 0, 0)));
}

#[test]
fn normal_is_not_brought_to_unit_length() {
    let n = plane_normal_vector(&p(0, 0, 0), &p(5, 1, 0), &p(5, 9, 0)).unwrap();
    assert!(n.eq_value(&p(0, 0, 40)));
    let tilted = plane_normal_vector(&p(1, 1, 1), &p(2, 1, 1), &p(1, 2, 2)).unwrap();
    assert!(tilted.eq_value(&p(0, -1, 1)));
}

#[test]
fn normal_that_does_not_fit_gives_nothing() {
    let far = point(ratio(i64::MAX, 1), whole(0), whole(0));
    assert!(plane_normal_vector(&p(-1, 0, 0), &far, &p(0, 1, 0)).is_none());
    let big = point(ratio(1 << 40, 1), whole(0), whole(0));
    let tall = point(whole(0), ratio(1 << 40, 1), whole(0));
    assert!(plane_normal_vector(&p(0, 0, 0), &big, &tall).is_none());
}

#[test]
fn orientation_tells_left_from_right() {
    assert_eq!(orientation_exact(&p(0, 0, 0), &p(2, 0, 0), &p(1, 3, 7)), Some(whole(6)));
    assert_eq!(orientation_exact(&p(0, 0, 0), &p(2, 0, 0), &p(1, -3, 7)), Some(whole(-6)));
    assert_eq!(orientation_exact(&p(0, 0, 0), &p(2, 0, 0), &p(5, 0, 7)), Some(whole(0)));
}

#[test]
fn quadrilateral_contains_its_inside_and_its_edges() {
    let q = trapezoid_points();
    assert_eq!(quadrilateral_contains(&q, &p(1, 6, 0)), Some(true));
    assert_eq!(quadrilateral_contains(&q, &p(0, 0, 0)), Some(true));
    assert_eq!(quadrilateral_contains(&q, &p(5, 5, 0)), Some(true));
    assert_eq!(quadrilateral_contains(&q, &p(6, 5, 0)), Some(false));
    assert_eq!(quadrilateral_contains(&q, &p(4, 0, 0)), Some(false));
    assert_eq!(quadrilateral_contains(&q, &p(-1, 5, 0)), Some(false));
    // the third coordinate is not looked at
    assert_eq!(quadrilateral_contains(&q, &p(1, 6, 99)), Some(true));
    let half = point(ratio(5, 2), ratio(1, 2), whole(0));
    assert_eq!(quadrilateral_contains(&q, &half), Some(true));
    let below = point(ratio(5, 2), ratio(49, 100), whole(0));
    assert_eq!(quadrilateral_contains(&q, &below), Some(false));
}

#[test]
fn quadrilateral_wound_the_other_way_contains_the_same_points() {
    let q = [p(0, 10, 0), p(5, 9, 0), p(5, 1, 0), p(0, 0, 0)];
    assert_eq!(quadrilateral_contains(&q, &p(1, 6, 0)), Some(true));
    assert_eq!(quadrilateral_contains(&q, &p(6, 5, 0)), Some(false));
}

#[test]
fn wound_corners_are_left_alone() {
    let q = organize_points(trapezoid_points());
    let same = trapezoid_points();
    for i in 0..4 {
        assert!(q[i].eq_value(&same[i]));
    }
}

#[test]
fn crossed_corners_are_brought_into_winding_order() {
    // the last two corners exchanged: the outline crosses itself
    let q = organize_points([p(0, 0, 0), p(5, 1, 0), p(0, 10, 0), p(5, 9, 0)]);
    let want = trapezoid_points();
    for i in 0..4 {
        assert!(q[i].eq_value(&want[i]));
    }
    // the middle two exchanged
    let r = organize_points([p(0, 0, 0), p(5, 9, 0), p(5, 1, 0), p(0, 10, 0)]);
    for i in 0..4 {
        assert!(r[i].eq_value(&want[i]));
    }
}

#[test]
fn corners_of_no_convex_outline_are_left_as_given() {
    // the fourth corner lies inside the triangle of the other three
    let given = [p(0, 0, 0), p(10, 0, 0), p(0, 10, 0), p(2, 2, 0)];
    let q = organize_points([p(0, 0, 0), p(10, 0, 0), p(0, 10, 0), p(2, 2, 0)]);
    for i in 0..4 {
        assert!(q[i].eq_value(&given[i]));
    }
}

#[test]
fn sensor_needs_an_invertible_matrix() {
    let flat = matrix([[1, 0, 0, 0], [0, 1, 0, 0], [0, 0, 0, 0], [0, 0, 0, 1]]);
    assert_eq!(
        Trapezoid::new(trapezoid_points(), flat).err(),
        Some(SensorError::NonInvertibleTransform)
    );
    let twice = matrix([[1, 2, 3, 4], [2, 4, 6, 8], [0, 1, 0, 0], [0, 0, 0, 1]]);
    assert_eq!(
        Trapezoid::new(trapezoid_points(), twice).err(),
        Some(SensorError::NonInvertibleTransform)
    );
    assert!(Trapezoid::new(trapezoid_points(), shifted(1, 2, 3)).is_ok());
}

#[test]
fn sensor_with_numbers_too_large_to_invert() {
    let m: Mat4 = Matrix::<4, 4>::identity()
        .with_entry(0, 0, ratio(1, i64::MAX))
        .with_entry(1, 0, whole(1))
        .with_entry(1, 1, ratio(1, i64::MAX));
    assert_eq!(Trapezoid::new(trapezoid_points(), m).err(), Some(SensorError::ArithmeticOverflow));
}

#[test]
fn sensor_brings_its_corners_into_order() {
    let s = Trapezoid::new([p(0, 0, 0), p(5, 1, 0), p(0, 10, 0), p(5, 9, 0)], shifted(0, 0, 0))
        .unwrap();
    let want = trapezoid_points();
    for i in 0..4 {
        assert!(s.corner(i).eq_value(&want[i]));
    }
}

#[test]
fn plane_must_be_computed_before_it_is_asked() {
    let mut s = Trapezoid::new(trapezoid_points(), shifted(1, 2, 3)).unwrap();
    assert_eq!(s.on_plane(&p(1, 1, 0)), Err(SensorError::GeometryNotReady));
    assert_eq!(s.contains_from_local(&p(1, 6, 0)), Err(SensorError::GeometryNotReady));
    let n = s.plane().unwrap();
    assert!(n.eq_value(&p(0, 0, 40)));
    assert_eq!(s.on_plane(&p(1, 1, 0)), Ok(true));
    assert_eq!(s.contains_from_local(&p(1, 6, 0)), Ok(true));
    // a second call returns what was kept
    assert!(s.plane().unwrap().eq_value(&n));
}

#[test]
fn corners_lie_on_the_plane_and_points_off_it_do_not() {
    let mut s = Trapezoid::new(trapezoid_points(), shifted(0, 0, 0)).unwrap();
    let n = s.plane().unwrap();
    for i in 0..4 {
        let c = s.corner(i);
        assert_eq!(s.on_plane(&c), Ok(true));
        // the corner moved along the normal
        let off = c.add(&n).unwrap();
        assert_eq!(s.on_plane(&off), Ok(false));
        let a_little = point(c.get(0, 0), c.get(1, 0), ratio(-1, 1000));
        assert_eq!(s.on_plane(&a_little), Ok(false));
    }
}

#[test]
fn tilted_sensor_has_its_corners_on_its_plane() {
    let corners = [p(0, 0, 0), p(4, 0, 2), p(4, 4, 2), p(0, 4, 0)];
    let mut s = Trapezoid::new(corners, shifted(0, 0, 0)).unwrap();
    assert!(s.plane().unwrap().eq_value(&p(-8, 0, 16)));
    for i in 0..4 {
        assert_eq!(s.on_plane(&s.corner(i)), Ok(true));
    }
    assert_eq!(s.contains_from_local(&p(2, 2, 1)), Ok(true));
    assert_eq!(s.contains_from_local(&p(2, 2, 0)), Ok(false));
}

#[test]
fn sensor_that_is_not_flat_leaves_its_fourth_corner_off_the_plane() {
    let corners = [p(0, 0, 0), p(4, 0, 0), p(4, 4, 0), p(0, 4, 1)];
    let mut s = Trapezoid::new(corners, shifted(0, 0, 0)).unwrap();
    s.plane().unwrap();
    assert_eq!(s.on_plane(&s.corner(2)), Ok(true));
    assert_eq!(s.on_plane(&s.corner(3)), Ok(false));
}

#[test]
fn transform_is_applied_by_its_first_three_rows() {
    let m = matrix([[1, 5, 7, 2], [3, 5, 7, 4], [8, 4, 1, 9], [2, 6, 4, 8]]);
    let s = Trapezoid::new(trapezoid_points(), m).unwrap();
    let g = s.to_global(p(1, 2, 0)).unwrap();
    assert!(g.eq_value(&p(13, 17, 25)));
}

#[test]
fn matrix_that_is_not_affine_breaks_the_round_trip() {
    let m = matrix([[1, 0, 0, 0], [0, 1, 0, 0], [0, 0, 1, 0], [0, 0, 0, 2]]);
    let s = Trapezoid::new(trapezoid_points(), m).unwrap();
    let q = p(1, 2, 3);
    // the identity in its first three rows, but the inverse is taken of all four
    let there = s.to_global(p(1, 2, 3)).unwrap();
    assert!(there.eq_value(&q));
    let back = s.to_local(there).unwrap();
    assert!(back.eq_value(&q));
    let skewed = matrix([[1, 0, 0, 1], [0, 1, 0, 0], [0, 0, 1, 0], [1, 0, 0, 2]]);
    let t = Trapezoid::new(trapezoid_points(), skewed).unwrap();
    let away = t.to_global(p(1, 2, 3)).unwrap();
    assert!(away.eq_value(&p(2, 2, 3)));
    assert!(!t.to_local(away).unwrap().eq_value(&q));
}

#[test]
fn rotated_sensor_carries_points_there_and_back() {
    // a quarter turn about the vertical axis with scaling and a shift
    let m = matrix([[0, -2, 0, 7], [2, 0, 0, -3], [0, 0, 3, 1], [0, 0, 0, 1]]);
    let s = Trapezoid::new(trapezoid_points(), m).unwrap();
    let q = point(ratio(3, 7), whole(-2), ratio(5, 3));
    let g = s.to_global(q.duplicate()).unwrap();
    assert!(g.eq_value(&point(whole(11), ratio(-15, 7), whole(6))));
    assert!(s.to_local(g).unwrap().eq_value(&q));
    assert!(s.to_global(s.to_local(q.duplicate()).unwrap()).unwrap().eq_value(&q));
}

#[test]
fn line_meets_plane() {
    let hit = intersect(&p(0, 1, -2), &p(5, 1, 2), &p(10, 0, 0), &p(3, 0, 0)).unwrap();
    assert!(hit.eq_value(&p(10, 3, 2)));
    let slanted = intersect(&p(0, 0, 0), &p(1, 1, 1), &p(0, 0, 6), &p(1, 1, 1)).unwrap();
    assert!(slanted.eq_value(&p(2, 2, 2)));
    let behind = intersect(&p(0, 0, 0), &p(1, 0, 0), &p(-4, 0, 0), &p(1, 0, 0)).unwrap();
    assert!(behind.eq_value(&p(-4, 0, 0)));
    assert_eq!(
        intersect(&p(0, 0, 0), &p(0, 1, 0), &p(10, 0, 0), &p(1, 0, 0)).err(),
        Some(SensorError::OutsideSensorBounds)
    );
    let far = point(ratio(i64::MAX, 1), whole(0), whole(0));
    assert_eq!(
        intersect(&p(-1, 0, 0), &p(1, 0, 0), &far, &p(1, 0, 0)).err(),
        Some(SensorError::ArithmeticOverflow)
    );
}

#[test]
fn errors_say_what_went_wrong() {
    assert_eq!(
        SensorError::NonInvertibleTransform.message(),
        "the transformation of the sensor has no inverse"
    );
    assert_eq!(
        SensorError::GeometryNotReady.message(),
        "the normal of the sensor has not been computed"
    );
    assert_eq!(
        SensorError::OutsideSensorBounds.message(),
        "the track does not meet the sensor within its bounds"
    );
    assert_eq!(SensorError::SingularMatrix.message(), "a covariance matrix has no inverse");
    assert_eq!(SensorError::ArithmeticOverflow.message(), "a number cannot be stored exactly");
}
