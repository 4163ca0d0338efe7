use kalman_rs::config::{Mat4, P3, Vec3, Vec5};
use kalman_rs::error::SensorError;
use kalman_rs::filter::prediction::linear_state_vector;
use kalman_rs::geometry::traits::{Plane, Transform};
use kalman_rs::geometry::utils::point;
use kalman_rs::matrix::Matrix;
use kalman_rs::rational::Rational;
use kalman_rs::Trapezoid;

fn whole(n: i32) -> Rational {
    Rational::from_int(n)
}

fn column5(v: [i32; 5]) -> Vec5 {
    Matrix::from_rows(v.iter().map(|x| vec![whole(*x)]).collect()).unwrap()
}

fn direction(x: i32, y: i32, z: i32) -> Vec3 {
    point(whole(x), whole(y), whole(z))
}

fn square() -> [P3; 4] {
    [
        point(whole(-5), whole(-5), whole(0)),
        point(whole(5), whole(-5), whole(0)),
        point(whole(5), whole(5), whole(0)),
        point(whole(-5), whole(5), whole(0)),
    ]
}

/// Local `(u, v, w)` goes to global `(x0 + w, u, v)`: a plane normal to the
/// global x axis at `x0`.
fn facing_x(x0: i32) -> Mat4 {
    let rows = vec![
        vec![whole(0), whole(0), whole(1), whole(x0)],
        vec![whole(1), whole(0), whole(0), whole(0)],
        vec![whole(0), whole(1), whole(0), whole(0)],
        vec![whole(0), whole(0), whole(0), whole(1)],
    ];
    Matrix::from_rows(rows).unwrap()
}

fn sensor_at(x0: i32) -> Trapezoid {
    let mut s = Trapezoid::new(square(), facing_x(x0)).unwrap();
    s.plane().unwrap();
    s
}

#[test]
fn track_aimed_at_the_centre_hits_the_local_origin() {
    let start = sensor_at(0);
    let end = sensor_at(10);
    let state = column5([0, 0, 0, 0, 1]);
    let next = linear_state_vector(&start, &end, &state, &direction(1, 0, 0)).unwrap();
    assert!(next.eq_value(&column5([0, 0, 0, 0, 1])));
}

#[test]
fn slanted_track_lands_where_the_line_meets_the_plane() {
    let start = sensor_at(0);
    let end = sensor_at(10);
    let state = column5([1, -2, 7, 8, 9]);
    // From global (0, 1, -2) along (5, 1, 2): at x = 10 the line is at
    // (10, 3, 2), which is local (3, 2).
    let next = linear_state_vector(&start, &end, &state, &direction(5, 1, 2)).unwrap();
    assert!(next.eq_value(&column5([3, 2, 7, 8, 9])));
}

#[test]
fn track_aimed_past_the_sensor_is_rejected() {
    let start = sensor_at(0);
    let end = sensor_at(10);
    let state = column5([0, 0, 0, 0, 0]);
    let r = linear_state_vector(&start, &end, &state, &direction(1, 1, 0));
    assert_eq!(r.err(), Some(SensorError::OutsideSensorBounds));
}

#[test]
fn track_along_the_plane_is_rejected() {
    let start = sensor_at(0);
    let end = sensor_at(10);
    let state = column5([0, 0, 0, 0, 0]);
    let r = linear_state_vector(&start, &end, &state, &direction(0, 1, 0));
    assert_eq!(r.err(), Some(SensorError::OutsideSensorBounds));
}

#[test]
fn sensor_without_normal_is_not_ready() {
    let start = sensor_at(0);
    let end = Trapezoid::new(square(), facing_x(10)).unwrap();
    let state = column5([0, 0, 0, 0, 0]);
    let r = linear_state_vector(&start, &end, &state, &direction(1, 0, 0));
    assert_eq!(r.err(), Some(SensorError::GeometryNotReady));
}

#[test]
fn point_on_the_edge_counts_as_within() {
    let s = sensor_at(0);
    assert_eq!(s.contains_from_local(&point(whole(5), whole(0), whole(0))), Ok(true));
    assert_eq!(s.contains_from_local(&point(whole(6), whole(0), whole(0))), Ok(false));
    assert_eq!(s.contains_from_local(&point(whole(0), whole(0), whole(1))), Ok(false));
}

#[test]
fn to_local_undoes_to_global() {
    let s = sensor_at(10);
    let p = point(Rational::new(1, 3).unwrap(), whole(-4), Rational::new(7, 2).unwrap());
    let g = s.to_global(p.duplicate()).unwrap();
    assert!(g.eq_value(&point(Rational::new(27, 2).unwrap(), Rational::new(1, 3).unwrap(), whole(-4))));
    let back = s.to_local(g).unwrap();
    assert!(back.eq_value(&p));
    let there = s.to_global(s.to_local(p.duplicate()).unwrap()).unwrap();
    assert!(there.eq_value(&p));
}
