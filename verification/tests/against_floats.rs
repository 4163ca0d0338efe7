use kalman_rs::config::{Mat2, Mat2x5, Mat4, Mat5, Vec2, Vec5};
use kalman_rs::filter::linear::{filter_step, measurement_model, run};
use kalman_rs::filter::utils::Transport;
use kalman_rs::geometry::traits::Plane;
use kalman_rs::filter::prediction::{covariance_matrix, residual_mat, residual_vec, state_vector};
use kalman_rs::geometry::traits::Transform;
use kalman_rs::geometry::utils::point;
use kalman_rs::inverse::try_inverse;
use kalman_rs::matrix::Matrix;
use kalman_rs::rational::Rational;
use kalman_rs::Trapezoid;
use nalgebra::{Affine3, Matrix2, Matrix2x5, Matrix4, Matrix5, Point3, SMatrix, Vector2, Vector5};

fn exact<const R: usize, const C: usize>(rows: [[i32; C]; R]) -> Matrix<R, C> {
    Matrix::from_rows(
        rows.iter().map(|r| r.iter().map(|x| Rational::new(*x as i64, 8).unwrap()).collect()).collect(),
    )
    .unwrap()
}

fn float<const R: usize, const C: usize>(rows: [[i32; C]; R]) -> SMatrix<f64, R, C> {
    SMatrix::from_fn(|i, j| rows[i][j] as f64 / 8.0)
}

fn value(r: Rational) -> f64 {
    r.numer() as f64 / r.denom() as f64
}

fn close<const R: usize, const C: usize>(a: &Matrix<R, C>, b: &SMatrix<f64, R, C>) -> bool {
    (0..R).all(|i| (0..C).all(|j| (value(a.get(i, j)) - b[(i, j)]).abs() <= 1e-9 * (1.0 + b[(i, j)].abs())))
}

const J: [[i32; 5]; 5] =
    [[8, 0, 40, 3, 0], [0, 8, -2, 40, 0], [1, 0, 8, 0, 5], [0, -1, 0, 8, 0], [0, 0, 0, 0, 8]];
const C: [[i32; 5]; 5] =
    [[32, 8, 0, 8, 0], [8, 24, 8, 0, 0], [0, 8, 16, 0, 8], [8, 0, 0, 40, 0], [0, 0, 8, 0, 8]];
const X: [[i32; 1]; 5] = [[13], [-7], [2], [5], [-1]];
const H: [[i32; 5]; 2] = [[8, 0, 0, 0, 0], [0, 8, 0, 0, 0]];
const V: [[i32; 2]; 2] = [[3, 1], [1, 5]];
const M: [[i32; 1]; 2] = [[9], [-4]];

#[test]
fn state_vector_agrees_with_floating_point() {
    let j: Mat5 = exact(J);
    let x: Vec5 = exact(X);
    let jf: Matrix5<f64> = float(J);
    let xf: Vector5<f64> = float(X);
    assert!(close(&state_vector(&j, &x).unwrap(), &(jf * xf)));
}

#[test]
fn covariance_matrix_agrees_with_floating_point_and_is_symmetric() {
    let j: Mat5 = exact(J);
    let c: Mat5 = exact(C);
    let jf: Matrix5<f64> = float(J);
    let cf: Matrix5<f64> = float(C);
    let out = covariance_matrix(&j, &c).unwrap();
    assert!(close(&out, &(jf * cf * jf.transpose())));
    assert!(out.eq_value(&out.transpose()));
    assert_eq!(out.get(0, 1), out.get(1, 0));
    assert_eq!(out.get(0, 0), Rational::new(3549, 64).unwrap());
}

#[test]
fn residuals_agree_with_floating_point() {
    let h: Mat2x5 = exact(H);
    let c: Mat5 = exact(C);
    let v: Mat2 = exact(V);
    let m: Vec2 = exact(M);
    let x: Vec5 = exact(X);
    let hf: Matrix2x5<f64> = float(H);
    let cf: Matrix5<f64> = float(C);
    let vf: Matrix2<f64> = float(V);
    let mf: Vector2<f64> = float(M);
    let xf: Vector5<f64> = float(X);
    assert!(close(&residual_mat(&v, &h, &c).unwrap(), &(vf + hf * cf * hf.transpose())));
    assert!(close(&residual_vec(&m, &h, &x).unwrap(), &(mf - hf * xf)));
    assert!(residual_vec(&m, &h, &x).unwrap().eq_value(&exact([[-4], [3]])));
}

#[test]
fn filter_step_agrees_with_floating_point() {
    let c: Mat5 = exact(C);
    let v: Mat2 = exact(V);
    let m: Vec2 = exact(M);
    let x: Vec5 = exact(X);
    let h = measurement_model();
    let (xe, ce) = filter_step(&x, &c, &m, &v, &h).unwrap();
    let hf: Matrix2x5<f64> = float(H);
    let cf: Matrix5<f64> = float(C);
    let vf: Matrix2<f64> = float(V);
    let mf: Vector2<f64> = float(M);
    let xf: Vector5<f64> = float(X);
    let s = vf + hf * cf * hf.transpose();
    let k = cf * hf.transpose() * s.try_inverse().unwrap();
    assert!(close(&xe, &(xf + k * (mf - hf * xf))));
    assert!(close(&ce, &((Matrix5::identity() - k * hf) * cf)));
}

#[test]
fn inverse_agrees_with_floating_point() {
    let c: Mat5 = exact(C);
    let cf: Matrix5<f64> = float(C);
    assert!(close(&try_inverse(&c).unwrap(), &cf.try_inverse().unwrap()));
    let t: Mat4 = exact([[1, 5, 7, 2], [3, 5, 7, 4], [8, 4, 1, 9], [2, 6, 4, 8]]);
    let tf: Matrix4<f64> = float([[1, 5, 7, 2], [3, 5, 7, 4], [8, 4, 1, 9], [2, 6, 4, 8]]);
    assert!(close(&try_inverse(&t).unwrap(), &tf.try_inverse().unwrap()));
}

#[test]
fn sensor_transform_agrees_with_floating_point() {
    let rows = [[1, 5, 7, 2], [3, 5, 7, 4], [8, 4, 1, 9], [2, 6, 4, 8]];
    let corners = [
        point(Rational::from_int(0), Rational::from_int(0), Rational::from_int(0)),
        point(Rational::from_int(5), Rational::from_int(1), Rational::from_int(0)),
        point(Rational::from_int(5), Rational::from_int(9), Rational::from_int(0)),
        point(Rational::from_int(0), Rational::from_int(10), Rational::from_int(0)),
    ];
    let sensor = Trapezoid::new(corners, exact(rows)).unwrap();
    let affine: Affine3<f64> = Affine3::from_matrix_unchecked(float(rows));
    let p = point(Rational::from_int(1), Rational::from_int(2), Rational::from_int(0));
    let g = sensor.to_global(p).unwrap();
    let gf = affine * Point3::new(1.0, 2.0, 0.0);
    assert!(close(&g, &gf.coords));
    let q = point(Rational::from_int(4), Rational::from_int(5), Rational::from_int(6));
    let l = sensor.to_local(q).unwrap();
    let lf = affine.inverse() * Point3::new(4.0, 5.0, 6.0);
    assert!(close(&l, &lf.coords));
}

fn whole<const R: usize, const C: usize>(rows: [[i32; C]; R]) -> Matrix<R, C> {
    Matrix::from_rows(
        rows.iter().map(|r| r.iter().map(|x| Rational::from_int(*x)).collect()).collect(),
    )
    .unwrap()
}

#[test]
fn fit_agrees_with_floating_point() {
    let drift = [[1, 0, 10, 0, 0], [0, 1, 0, 10, 0], [0, 0, 1, 0, 0], [0, 0, 0, 1, 0], [0, 0, 0, 0, 1]];
    let hits = [[[1], [0]], [[2], [-1]], [[0], [1]]];
    let seed = [[1], [-1], [0], [0], [0]];
    // the exact fit
    let sensors: Vec<Trapezoid> = (0..3)
        .map(|i| {
            let corners = [
                point(Rational::from_int(-5), Rational::from_int(-5), Rational::from_int(0)),
                point(Rational::from_int(5), Rational::from_int(-5), Rational::from_int(0)),
                point(Rational::from_int(5), Rational::from_int(5), Rational::from_int(0)),
                point(Rational::from_int(-5), Rational::from_int(5), Rational::from_int(0)),
            ];
            let facing = whole([[0, 0, 1, 10 * i], [1, 0, 0, 0], [0, 1, 0, 0], [0, 0, 0, 1]]);
            let mut s = Trapezoid::new(corners, facing).unwrap();
            s.plane().unwrap();
            s
        })
        .collect();
    let transports: Vec<Transport> = (0..2)
        .map(|_| Transport {
            direction: point(Rational::from_int(1), Rational::from_int(0), Rational::from_int(0)),
            jacobian: whole(drift),
        })
        .collect();
    let out = run(
        &whole(seed),
        &Mat5::identity(),
        &hits.iter().map(|h| whole(*h)).collect(),
        &sensors,
        &transports,
        &whole([[1, 0], [0, 1]]),
    )
    .unwrap();
    // the same fit in floating point
    let j: Matrix5<f64> = SMatrix::from_fn(|r, c| drift[r][c] as f64);
    let h: Matrix2x5<f64> = SMatrix::from_fn(|r, c| if r == c { 1.0 } else { 0.0 });
    let v: Matrix2<f64> = Matrix2::identity();
    let mut pred: Vec<(Vector5<f64>, Matrix5<f64>)> = Vec::new();
    let mut filt: Vec<(Vector5<f64>, Matrix5<f64>)> = Vec::new();
    for i in 0..3 {
        let (xp, cp) = if i == 0 {
            (Vector5::from_fn(|r, _| seed[r][0] as f64), Matrix5::identity())
        } else {
            // along the x axis the local coordinates stay what they are
            (filt[i - 1].0, j * filt[i - 1].1 * j.transpose())
        };
        let m: Vector2<f64> = Vector2::new(hits[i][0][0] as f64, hits[i][1][0] as f64);
        let s = v + h * cp * h.transpose();
        let k = cp * h.transpose() * s.try_inverse().unwrap();
        filt.push((xp + k * (m - h * xp), (Matrix5::identity() - k * h) * cp));
        pred.push((xp, cp));
    }
    let mut smth = vec![filt[2]; 3];
    for i in (0..2).rev() {
        let a = filt[i].1 * j.transpose() * pred[i + 1].1.try_inverse().unwrap();
        smth[i] = (
            filt[i].0 + a * (smth[i + 1].0 - pred[i + 1].0),
            filt[i].1 + a * (smth[i + 1].1 - pred[i + 1].1) * a.transpose(),
        );
    }
    for i in 0..3 {
        assert!(close(&out.pred.state_vec[i], &pred[i].0));
        assert!(close(&out.pred.cov_mat[i], &pred[i].1));
        assert!(close(&out.filt.state_vec[i], &filt[i].0));
        assert!(close(&out.filt.cov_mat[i], &filt[i].1));
        assert!(close(&out.smth.state_vec[i], &smth[i].0));
        assert!(close(&out.smth.cov_mat[i], &smth[i].1));
    }
}
