use kalman_rs::config::{Mat5, Vec2, Vec5};
use kalman_rs::filter::utils::{Data, SuperData};
use kalman_rs::generate_data::run::general::{
    pull, pull_distribution_general, pulls_of_pass, residual_to_vec, residuals_by_sensor,
};
use kalman_rs::generate_data::statistics::{
    calc_residual, create_residuals, fetch_kf_residuals_all, smear_residuals,
    truth_kf_output_residuals, vec5_to_vec2_all, vec5_to_vec2_one,
};
use kalman_rs::generate_data::structs::{KFData, Residuals, StorageData};
use kalman_rs::matrix::Matrix;
use kalman_rs::rational::Rational;

fn whole(n: i32) -> Rational {
    Rational::from_int(n)
}

fn ratio(n: i64, d: i64) -> Rational {
    Rational::new(n, d).unwrap()
}

fn hit(x: i32, y: i32) -> Vec2 {
    Matrix::from_rows(vec![vec![whole(x)], vec![whole(y)]]).unwrap()
}

fn state(x: i32, y: i32) -> Vec5 {
    Matrix::from_rows(vec![
        vec![whole(x)],
        vec![whole(y)],
        vec![whole(7)],
        vec![whole(8)],
        vec![whole(9)],
    ])
    .unwrap()
}

fn spread(a: i32, b: i32) -> Mat5 {
    Mat5::identity().with_entry(0, 0, whole(a)).with_entry(1, 1, whole(b))
}

fn pass(states: &[(i32, i32)], a: i32, b: i32) -> Data {
    Data {
        state_vec: states.iter().map(|(x, y)| state(*x, *y)).collect(),
        cov_mat: states.iter().map(|_| spread(a, b)).collect(),
    }
}

fn track(truth: &[(i32, i32)], smear: &[(i32, i32)]) -> KFData<u8> {
    KFData {
        sensors: Vec::new(),
        start: state(0, 0),
        cov: Mat5::identity(),
        smear_initial_vector: state(0, 0),
        truth_hits: truth.iter().map(|(x, y)| hit(*x, *y)).collect(),
        smear_hits: smear.iter().map(|(x, y)| hit(*x, *y)).collect(),
    }
}

fn fit(pred: &[(i32, i32)], filt: &[(i32, i32)], smth: &[(i32, i32)]) -> SuperData {
    SuperData { pred: pass(pred, 2, 4), filt: pass(filt, 1, 1), smth: pass(smth, 5, 10) }
}

fn same(a: &Vec<Vec2>, b: &[(i32, i32)]) -> bool {
    a.len() == b.len() && a.iter().zip(b).all(|(v, (x, y))| v.eq_value(&hit(*x, *y)))
}

#[test]
fn coordinates_are_read_off_a_state() {
    assert!(vec5_to_vec2_one(&state(3, -4)).eq_value(&hit(3, -4)));
    let all = vec5_to_vec2_all(&vec![state(1, 2), state(3, 4)]);
    assert!(same(&all, &[(1, 2), (3, 4)]));
    assert!(vec5_to_vec2_all(&Vec::new()).is_empty());
}

#[test]
fn residual_is_state_less_truth() {
    let states = vec![state(5, 5), state(1, 0), state(9, 9)];
    let truth = vec![hit(1, 2), hit(3, 4)];
    let r = calc_residual(&states, &truth, false).unwrap();
    assert!(same(&r, &[(4, 3), (-2, -4)]));
    assert!(same(&calc_residual(&states, &truth, true).unwrap(), &[(4, 3), (-2, -4)]));
}

#[test]
fn residual_that_does_not_fit_gives_nothing() {
    let far: Vec5 = state(0, 0).with_entry(0, 0, ratio(i64::MAX, 1));
    assert!(calc_residual(&vec![far], &vec![hit(-1, 0)], false).is_none());
}

#[test]
fn smear_residual_is_truth_less_smear() {
    let data = track(&[(1, 1), (2, 2), (3, 3)], &[(0, 2), (4, 4)]);
    let r = smear_residuals(&data).unwrap();
    assert!(same(&r, &[(1, -1), (-2, -2)]));
}

#[test]
fn residuals_of_a_fit_against_the_truth() {
    let data = track(&[(1, 1), (2, 2)], &[]);
    let kf = fit(&[(1, 0), (0, 0)], &[(1, 1), (3, 3)], &[(2, 2), (2, 2)]);
    let (p, f, s) = create_residuals(&data, &kf, false).unwrap();
    assert!(same(&p, &[(0, -1), (-2, -2)]));
    assert!(same(&f, &[(0, 0), (1, 1)]));
    assert!(same(&s, &[(1, 1), (0, 0)]));
    let all = fetch_kf_residuals_all(&vec![(data, kf)]).unwrap();
    assert_eq!(all.len(), 1);
    assert!(same(&all[0].0, &[(0, -1), (-2, -2)]));
    assert!(same(&all[0].2, &[(1, 1), (0, 0)]));
}

#[test]
fn truth_residual_is_truth_less_estimate() {
    let data = track(&[(1, 1), (2, 2), (3, 3)], &[]);
    let kf = fit(&[(1, 0), (0, 0)], &[(1, 1), (3, 3)], &[(2, 2), (2, 2)]);
    let all = truth_kf_output_residuals(vec![(data, kf)]).unwrap();
    assert_eq!(all.len(), 1);
    // as many sensors as the truth and the passes both hold
    assert!(same(&all[0].pred, &[(0, 1), (2, 2)]));
    assert!(same(&all[0].filt, &[(0, 0), (-1, -1)]));
    assert!(same(&all[0].smth, &[(-1, -1), (0, 0)]));
}

#[test]
fn grouped_residuals_go_to_their_rows() {
    let r = Residuals::new_grouped(vec![(hit(1, 1), hit(2, 2), hit(3, 3)), (hit(4, 4), hit(5, 5), hit(6, 6))]);
    assert!(same(&r.smth, &[(1, 1), (4, 4)]));
    assert!(same(&r.filt, &[(2, 2), (5, 5)]));
    assert!(same(&r.pred, &[(3, 3), (6, 6)]));
}

#[test]
fn residuals_are_regrouped_by_sensor() {
    let first = Residuals {
        pred: vec![hit(1, 0), hit(2, 0)],
        filt: vec![hit(3, 0), hit(4, 0)],
        smth: vec![hit(5, 0), hit(6, 0)],
    };
    let second = Residuals {
        pred: vec![hit(10, 0), hit(20, 0)],
        filt: vec![hit(30, 0), hit(40, 0)],
        smth: vec![hit(50, 0), hit(60, 0)],
    };
    let third = Residuals {
        pred: vec![hit(100, 0), hit(200, 0), hit(999, 0)],
        filt: vec![hit(300, 0), hit(400, 0)],
        smth: vec![hit(500, 0), hit(600, 0)],
    };
    let (p, f, s) = residuals_by_sensor(vec![first, second, third], 2);
    assert_eq!((p.len(), f.len(), s.len()), (2, 2, 2));
    assert!(same(&p[0], &[(1, 0), (10, 0), (100, 0)]));
    assert!(same(&p[1], &[(2, 0), (20, 0), (200, 0)]));
    assert!(same(&f[0], &[(3, 0), (30, 0), (300, 0)]));
    assert!(same(&f[1], &[(4, 0), (40, 0), (400, 0)]));
    assert!(same(&s[0], &[(5, 0), (50, 0), (500, 0)]));
    assert!(same(&s[1], &[(6, 0), (60, 0), (600, 0)]));
    let (p, f, s) = residuals_by_sensor(Vec::new(), 3);
    assert_eq!((p.len(), f.len(), s.len()), (3, 3, 3));
    assert!(p[2].is_empty());
}

#[test]
fn residuals_are_added_to_a_table() {
    let mut table = vec![StorageData::new(whole(0), whole(0))];
    residual_to_vec(&mut table, &vec![hit(1, 2), hit(3, 4)]);
    assert_eq!(
        table,
        vec![
            StorageData::new(whole(0), whole(0)),
            StorageData::new(whole(1), whole(2)),
            StorageData::new(whole(3), whole(4)),
        ]
    );
    assert_eq!(StorageData::from_vec2(hit(5, 6)), StorageData::new(whole(5), whole(6)));
}

#[test]
fn pull_divides_the_residual_by_the_covariance() {
    let p = pull(&hit(7, 1), &state(1, 5), &spread(4, 3)).unwrap();
    assert_eq!(p, StorageData::new(ratio(3, 2), ratio(-4, 3)));
    assert_eq!(pull(&hit(7, 1), &state(1, 5), &spread(0, 3)), None);
    assert_eq!(pull(&hit(7, 1), &state(1, 5), &spread(4, 0)), None);
}

#[test]
fn pulls_of_one_pass() {
    let hits = vec![hit(2, 2), hit(4, 4), hit(6, 6)];
    let rows = pulls_of_pass(&hits, &pass(&[(0, 0), (0, 0)], 2, 4), 2).unwrap();
    assert_eq!(
        rows,
        vec![StorageData::new(whole(1), ratio(1, 2)), StorageData::new(whole(2), whole(1))]
    );
    assert!(pulls_of_pass(&hits, &pass(&[(0, 0), (0, 0)], 0, 4), 2).is_none());
    assert_eq!(pulls_of_pass(&hits, &pass(&[(0, 0), (0, 0)], 0, 4), 0), Some(Vec::new()));
}

#[test]
fn pulls_are_gathered_by_sensor() {
    let long = (track(&[(2, 4), (4, 8)], &[]), fit(&[(0, 0), (0, 0)], &[(1, 1), (1, 1)], &[(2, 4), (-1, -2)]));
    let short = (track(&[(6, 12)], &[]), fit(&[(0, 0)], &[(0, 0)], &[(1, 2)]));
    let (p, f, s) = pull_distribution_general(&vec![long, short], 3).unwrap();
    assert_eq!((p.len(), f.len(), s.len()), (3, 3, 3));
    // sensor 0 is reached by both tracks, sensor 1 by the first, sensor 2 by none
    assert_eq!(p[0], vec![StorageData::new(whole(1), whole(1)), StorageData::new(whole(3), whole(3))]);
    assert_eq!(p[1], vec![StorageData::new(whole(2), whole(2))]);
    assert!(p[2].is_empty());
    assert_eq!(f[0], vec![StorageData::new(whole(1), whole(3)), StorageData::new(whole(6), whole(12))]);
    assert_eq!(f[1], vec![StorageData::new(whole(3), whole(7))]);
    assert_eq!(s[0], vec![StorageData::new(whole(0), whole(0)), StorageData::new(whole(1), whole(1))]);
    assert_eq!(s[1], vec![StorageData::new(whole(1), whole(1))]);
}

#[test]
fn pulls_with_a_zero_covariance_give_nothing() {
    let mut kf = fit(&[(0, 0)], &[(0, 0)], &[(0, 0)]);
    kf.smth.cov_mat[0] = spread(1, 0);
    assert!(pull_distribution_general(&vec![(track(&[(1, 1)], &[]), kf)], 1).is_none());
}

#[test]
fn bundle_grows_by_pairs() {
    let mut d = Data::new();
    assert_eq!(d.len(), 0);
    d.push(state(1, 2), spread(3, 4));
    d.push(state(5, 6), spread(7, 8));
    assert_eq!(d.len(), 2);
    assert!(d.state_vec[1].eq_value(&state(5, 6)));
    assert!(d.cov_mat[0].eq_value(&spread(3, 4)));
}
