use kalman_rs::config::{Mat4, P3, Vec3, Vec5};
use kalman_rs::error::SensorError;
use kalman_rs::filter::constant_magnetic_field::{curved_state_vector, fly, runge_kutta_step};
use kalman_rs::filter::prediction::linear_state_vector;
use kalman_rs::geometry::traits::Plane;
use kalman_rs::geometry::utils::point;
use kalman_rs::matrix::Matrix;
use kalman_rs::rational::Rational;
use kalman_rs::Trapezoid;

fn whole(n: i32) -> Rational {
    Rational::from_int(n)
}

fn ratio(n: i64, d: i64) -> Rational {
    Rational::new(n, d).unwrap()
}

fn p(x: i32, y: i32, z: i32) -> P3 {
    point(whole(x), whole(y), whole(z))
}

fn sensor_at(x0: i32) -> Trapezoid {
    let corners = [p(-5, -5, 0), p(5, -5, 0), p(5, 5, 0), p(-5, 5, 0)];
    let rows = [[0, 0, 1, x0], [1, 0, 0, 0], [0, 1, 0, 0], [0, 0, 0, 1]];
    let facing: Mat4 =
        Matrix::from_rows(rows.iter().map(|r| r.iter().map(|x| whole(*x)).collect()).collect())
            .unwrap();
    let mut s = Trapezoid::new(corners, facing).unwrap();
    s.plane().unwrap();
    s
}

fn state(x: Rational, y: Rational, curvature: Rational) -> Vec5 {
    Matrix::from_rows(vec![vec![x], vec![y], vec![whole(0)], vec![whole(0)], vec![curvature]]).unwrap()
}

fn field(z: Rational) -> Vec3 {
    point(whole(0), whole(0), z)
}

#[test]
fn one_step_in_a_field() {
    let (x, t) =
        runge_kutta_step(&p(0, 0, 0), &p(1, 0, 0), &ratio(1, 2), &field(ratio(1, 2)), &whole(2))
            .unwrap();
    assert!(x.eq_value(&point(ratio(23, 12), ratio(-47, 96), whole(0))));
    assert!(t.eq_value(&point(ratio(337, 384), ratio(-23, 48), whole(0))));
}

#[test]
fn one_step_without_a_field_is_straight() {
    let (x, t) =
        runge_kutta_step(&p(1, 2, 3), &p(1, -1, 2), &whole(7), &field(whole(0)), &ratio(3, 2)).unwrap();
    assert!(x.eq_value(&point(ratio(5, 2), ratio(1, 2), whole(6))));
    assert!(t.eq_value(&p(1, -1, 2)));
}

#[test]
fn flight_is_cut_where_its_chord_meets_the_plane() {
    let hit = fly(
        p(0, 0, 0),
        p(1, 0, 0),
        &ratio(1, 2),
        &field(ratio(1, 2)),
        &whole(2),
        &p(3, 0, 0),
        &p(1, 0, 0),
        8,
    )
    .unwrap();
    assert!(hit.eq_value(&point(whole(3), ratio(-191905, 128064), whole(0))));
}

#[test]
fn flight_that_does_not_reach_the_plane_misses() {
    let r = fly(
        p(0, 0, 0),
        p(1, 0, 0),
        &ratio(1, 2),
        &field(ratio(1, 2)),
        &whole(1),
        &p(3, 0, 0),
        &p(1, 0, 0),
        2,
    );
    assert_eq!(r.err(), Some(SensorError::OutsideSensorBounds));
    let none = fly(p(0, 0, 0), p(1, 0, 0), &whole(0), &field(whole(0)), &whole(1), &p(3, 0, 0), &p(1, 0, 0), 0);
    assert_eq!(none.err(), Some(SensorError::OutsideSensorBounds));
}

#[test]
fn flight_through_many_small_steps_leaves_the_stored_numbers() {
    let r = fly(
        p(0, 0, 0),
        p(1, 0, 0),
        &whole(1),
        &field(ratio(1, 4)),
        &whole(1),
        &p(3, 0, 0),
        &p(1, 0, 0),
        8,
    );
    assert_eq!(r.err(), Some(SensorError::ArithmeticOverflow));
}

#[test]
fn bent_track_lands_beside_the_straight_one() {
    let (start, end) = (sensor_at(0), sensor_at(3));
    let x = state(whole(0), whole(0), ratio(1, 2));
    let bent =
        curved_state_vector(&start, &end, &x, &p(1, 0, 0), &field(ratio(1, 2)), &whole(2), 8).unwrap();
    assert!(bent.eq_value(&state(ratio(-191905, 128064), whole(0), ratio(1, 2))));
    let straight = linear_state_vector(&start, &end, &x, &p(1, 0, 0)).unwrap();
    assert!(straight.eq_value(&x));
}

#[test]
fn without_a_field_the_bent_track_is_the_straight_one() {
    let (start, end) = (sensor_at(0), sensor_at(3));
    let x = state(ratio(1, 2), whole(-1), whole(9));
    let direction = p(2, 1, -1);
    let bent =
        curved_state_vector(&start, &end, &x, &direction, &field(whole(0)), &ratio(1, 2), 8).unwrap();
    let straight = linear_state_vector(&start, &end, &x, &direction).unwrap();
    assert!(bent.eq_value(&straight));
    assert!(bent.eq_value(&state(whole(2), ratio(-5, 2), whole(9))));
}

#[test]
fn bent_track_that_leaves_the_sensor_is_rejected() {
    let (start, end) = (sensor_at(0), sensor_at(3));
    let x = state(whole(0), whole(0), whole(0));
    let r = curved_state_vector(&start, &end, &x, &p(1, 3, 0), &field(whole(0)), &whole(1), 8);
    assert_eq!(r.err(), Some(SensorError::OutsideSensorBounds));
}

#[test]
fn bent_track_needs_the_normal_of_the_next_sensor() {
    let start = sensor_at(0);
    let x = state(whole(0), whole(0), whole(0));
    let unready = Trapezoid::new([p(-5, -5, 0), p(5, -5, 0), p(5, 5, 0), p(-5, 5, 0)], Mat4::identity())
        .unwrap();
    let r = curved_state_vector(&start, &unready, &x, &p(0, 0, 1), &field(whole(0)), &whole(1), 8);
    assert_eq!(r.err(), Some(SensorError::GeometryNotReady));
}
