use kalman_rs::config::{Mat2, Mat4, Mat5, P3, Vec2, Vec3, Vec5};
use kalman_rs::error::SensorError;
use kalman_rs::filter::linear::{filter, filter_step, measurement_model, run, smooth_step};
use kalman_rs::filter::utils::Transport;
use kalman_rs::geometry::traits::Plane;
use kalman_rs::geometry::utils::point;
use kalman_rs::matrix::Matrix;
use kalman_rs::rational::Rational;
use kalman_rs::Trapezoid;

fn whole(n: i32) -> Rational {
    Rational::from_int(n)
}

fn ratio(n: i64, d: i64) -> Rational {
    Rational::new(n, d).unwrap()
}

fn matrix<const R: usize, const C: usize>(rows: [[i32; C]; R]) -> Matrix<R, C> {
    Matrix::from_rows(rows.iter().map(|r| r.iter().map(|x| whole(*x)).collect()).collect()).unwrap()
}

fn trace(m: &Mat5) -> Rational {
    let mut t = whole(0);
    for i in 0..5 {
        t = t.add(&m.get(i, i)).unwrap();
    }
    t
}

fn square() -> [P3; 4] {
    [
        point(whole(-5), whole(-5), whole(0)),
        point(whole(5), whole(-5), whole(0)),
        point(whole(5), whole(5), whole(0)),
        point(whole(-5), whole(5), whole(0)),
    ]
}

fn facing_x(x0: i32) -> Mat4 {
    matrix([[0, 0, 1, x0], [1, 0, 0, 0], [0, 1, 0, 0], [0, 0, 0, 1]])
}

fn sensors(n: i32) -> Vec<Trapezoid> {
    (0..n)
        .map(|i| {
            let mut s = Trapezoid::new(square(), facing_x(10 * i)).unwrap();
            s.plane().unwrap();
            s
        })
        .collect()
}

/// The Jacobian of a straight flight over the distance `d`: each coordinate
/// moves by `d` times its angle.
fn drift(d: i32) -> Mat5 {
    matrix([[1, 0, d, 0, 0], [0, 1, 0, d, 0], [0, 0, 1, 0, 0], [0, 0, 0, 1, 0], [0, 0, 0, 0, 1]])
}

fn along_x(n: usize) -> Vec<Transport> {
    (0..n)
        .map(|_| Transport { direction: point(whole(1), whole(0), whole(0)), jacobian: drift(10) })
        .collect()
}

fn hits_at_origin(n: usize) -> Vec<Vec2> {
    (0..n).map(|_| matrix([[0], [0]])).collect()
}

fn identity2() -> Mat2 {
    matrix([[1, 0], [0, 1]])
}

#[test]
fn straight_track_through_three_sensors() {
    let start: Vec5 = matrix([[0], [0], [0], [0], [0]]);
    let out = run(
        &start,
        &Mat5::identity(),
        &hits_at_origin(3),
        &sensors(3),
        &along_x(2),
        &identity2(),
    )
    .unwrap();
    for pass in [&out.pred, &out.filt, &out.smth] {
        assert_eq!(pass.state_vec.len(), 3);
        assert_eq!(pass.cov_mat.len(), 3);
        for x in &pass.state_vec {
            assert!(x.eq_value(&start));
        }
    }
    // the filtered covariance shrinks from sensor to sensor
    let traces: Vec<Rational> = out.filt.cov_mat.iter().map(trace).collect();
    assert_eq!(traces[0], whole(4));
    assert_eq!(traces[1], ratio(611, 203));
    assert_eq!(traces[2], ratio(1457, 552));
    assert!(traces[1].lt(&traces[0]) && traces[2].lt(&traces[1]));
    // and what was predicted is what the Jacobian makes of the filtered one
    assert_eq!(trace(&out.pred.cov_mat[0]), whole(5));
    assert_eq!(trace(&out.pred.cov_mat[1]), whole(204));
    assert_eq!(trace(&out.pred.cov_mat[2]), ratio(2011, 203));
}

#[test]
fn smoothing_never_loses_information() {
    let start: Vec5 = matrix([[0], [0], [0], [0], [0]]);
    let out = run(
        &start,
        &Mat5::identity(),
        &hits_at_origin(4),
        &sensors(4),
        &along_x(3),
        &identity2(),
    )
    .unwrap();
    let expected = [ratio(6217, 3405), ratio(4817, 3405), ratio(5417, 3405), ratio(8017, 3405)];
    for i in 0..4 {
        let smoothed = trace(&out.smth.cov_mat[i]);
        assert_eq!(smoothed, expected[i]);
        assert!(smoothed.le(&trace(&out.filt.cov_mat[i])));
    }
}

#[test]
fn smoothed_equals_filtered_on_the_last_sensor() {
    let start: Vec5 = matrix([[1], [-1], [0], [0], [0]]);
    let hits: Vec<Vec2> = vec![matrix([[1], [0]]), matrix([[2], [-1]]), matrix([[0], [1]])];
    let out = run(&start, &Mat5::identity(), &hits, &sensors(3), &along_x(2), &identity2()).unwrap();
    assert!(out.smth.state_vec[2].eq_value(&out.filt.state_vec[2]));
    assert!(out.smth.cov_mat[2].eq_value(&out.filt.cov_mat[2]));
    assert!(!out.smth.state_vec[0].eq_value(&out.filt.state_vec[0]));
}

#[test]
fn hits_without_noise_are_reproduced() {
    let start: Vec5 = matrix([[1], [-1], [0], [0], [0]]);
    let hits: Vec<Vec2> = vec![matrix([[3], [2]]), matrix([[-1], [4]])];
    let (_pred, filt) =
        filter(&start, &Mat5::identity(), &hits, &sensors(2), &along_x(1), &matrix([[0, 0], [0, 0]]))
            .unwrap();
    for i in 0..2 {
        assert_eq!(filt.state_vec[i].get(0, 0), hits[i].get(0, 0));
        assert_eq!(filt.state_vec[i].get(1, 0), hits[i].get(1, 0));
    }
    // two exact hits fix the line: the angles follow the hits
    assert_eq!(filt.state_vec[1].get(2, 0), ratio(-2, 5));
    assert_eq!(filt.state_vec[1].get(3, 0), ratio(1, 5));
}

#[test]
fn third_exact_hit_meets_a_singular_covariance() {
    // after two exact hits nothing is left to learn in the coordinates
    let start: Vec5 = matrix([[0], [0], [0], [0], [0]]);
    let r = filter(
        &start,
        &Mat5::identity(),
        &hits_at_origin(3),
        &sensors(3),
        &along_x(2),
        &matrix([[0, 0], [0, 0]]),
    );
    assert_eq!(r.err(), Some(SensorError::SingularMatrix));
}

#[test]
fn noiseless_hit_is_reproduced_for_any_covariance() {
    let x: Vec5 = matrix([[7], [-3], [1], [2], [3]]);
    let c: Mat5 = matrix([
        [4, 1, 0, 1, 0],
        [1, 3, 1, 0, 0],
        [0, 1, 2, 0, 1],
        [1, 0, 0, 5, 0],
        [0, 0, 1, 0, 1],
    ]);
    let hit: Vec2 = matrix([[2], [9]]);
    let (xf, _cf) =
        filter_step(&x, &c, &hit, &matrix([[0, 0], [0, 0]]), &measurement_model()).unwrap();
    assert_eq!(xf.get(0, 0), whole(2));
    assert_eq!(xf.get(1, 0), whole(9));
}

#[test]
fn filter_step_weighs_prediction_and_hit() {
    let x: Vec5 = matrix([[0], [0], [1], [2], [3]]);
    let hit: Vec2 = matrix([[4], [-2]]);
    let (xf, cf) =
        filter_step(&x, &Mat5::identity(), &hit, &identity2(), &measurement_model()).unwrap();
    // equal weights: the filtered coordinates lie half way
    assert!(xf.eq_value(&matrix([[2], [-1], [1], [2], [3]])));
    assert_eq!(cf.get(0, 0), ratio(1, 2));
    assert_eq!(cf.get(1, 1), ratio(1, 2));
    assert_eq!(cf.get(2, 2), whole(1));
    assert_eq!(cf.get(0, 1), whole(0));
}

#[test]
fn filter_step_fails_on_a_singular_residual_covariance() {
    let x: Vec5 = matrix([[0], [0], [0], [0], [0]]);
    let hit: Vec2 = matrix([[0], [0]]);
    let nothing: Mat5 = Matrix::filled(whole(0));
    let r = filter_step(&x, &nothing, &hit, &matrix([[0, 0], [0, 0]]), &measurement_model());
    assert_eq!(r.err(), Some(SensorError::SingularMatrix));
}

#[test]
fn filter_step_fails_when_numbers_cannot_be_stored() {
    let x: Vec5 = matrix([[0], [0], [0], [0], [0]]);
    let hit: Vec2 = matrix([[0], [0]]);
    let huge: Mat5 = Matrix::filled(ratio(i64::MAX, 1));
    let r = filter_step(&x, &huge, &hit, &identity2(), &measurement_model());
    assert_eq!(r.err(), Some(SensorError::ArithmeticOverflow));
}

#[test]
fn smooth_step_fails_on_a_singular_prediction() {
    let x: Vec5 = matrix([[0], [0], [0], [0], [0]]);
    let nothing: Mat5 = Matrix::filled(whole(0));
    let id = Mat5::identity();
    let r = smooth_step(&x, &id, &id, &x, &nothing, &x, &id);
    assert_eq!(r.err(), Some(SensorError::SingularMatrix));
}

#[test]
fn run_without_noise_cannot_smooth() {
    // with exact hits the filtered covariance loses rank, and so does the
    // next prediction
    let start: Vec5 = matrix([[0], [0], [0], [0], [0]]);
    let r = run(
        &start,
        &Mat5::identity(),
        &hits_at_origin(3),
        &sensors(3),
        &along_x(2),
        &matrix([[0, 0], [0, 0]]),
    );
    assert_eq!(r.err(), Some(SensorError::SingularMatrix));
}

#[test]
fn run_gives_up_a_track_that_leaves_the_sensors() {
    let start: Vec5 = matrix([[0], [0], [0], [0], [0]]);
    let away: Vec<Transport> = (0..2)
        .map(|_| Transport { direction: point(whole(1), whole(1), whole(0)), jacobian: drift(10) })
        .collect();
    let r = run(&start, &Mat5::identity(), &hits_at_origin(3), &sensors(3), &away, &identity2());
    assert_eq!(r.err(), Some(SensorError::OutsideSensorBounds));
}

#[test]
fn run_over_one_sensor_only_filters() {
    let start: Vec5 = matrix([[0], [0], [0], [0], [0]]);
    let hits: Vec<Vec2> = vec![matrix([[2], [2]])];
    let out = run(&start, &Mat5::identity(), &hits, &sensors(1), &along_x(0), &identity2()).unwrap();
    assert!(out.pred.state_vec[0].eq_value(&start));
    assert!(out.filt.state_vec[0].eq_value(&matrix([[1], [1], [0], [0], [0]])));
    assert!(out.smth.state_vec[0].eq_value(&out.filt.state_vec[0]));
    assert!(out.smth.cov_mat[0].eq_value(&out.filt.cov_mat[0]));
}

#[test]
fn run_over_no_sensor_is_empty() {
    let start: Vec5 = matrix([[0], [0], [0], [0], [0]]);
    let out = run(
        &start,
        &Mat5::identity(),
        &hits_at_origin(0),
        &sensors(0),
        &along_x(0),
        &identity2(),
    )
    .unwrap();
    assert_eq!(out.pred.state_vec.len(), 0);
    assert_eq!(out.filt.cov_mat.len(), 0);
    assert_eq!(out.smth.state_vec.len(), 0);
}

#[test]
fn direction_used_is_that_of_the_transport() {
    let start: Vec5 = matrix([[0], [0], [0], [0], [0]]);
    let slanted: Vec<Transport> = vec![Transport {
        direction: point(whole(10), whole(2), whole(-3)),
        jacobian: drift(10),
    }];
    let hits: Vec<Vec2> = vec![matrix([[0], [0]]), matrix([[2], [-3]])];
    let (pred, _filt) =
        filter(&start, &Mat5::identity(), &hits, &sensors(2), &slanted, &identity2()).unwrap();
    assert!(pred.state_vec[1].eq_value(&matrix([[2], [-3], [0], [0], [0]])));
    let _unused: Vec3 = point(whole(0), whole(0), whole(0));
}
