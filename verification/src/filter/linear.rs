//! The two steps of the recursion: the update of a prediction by a hit, and
//! the correction of a filtered state by what was learned further down the
//! track.
use vstd::prelude::*;
use crate::config::{Mat2, Mat2x5, Mat5, Vec2, Vec5};
use crate::error::SensorError;
use crate::filter::definite::{covariance, lemma_smoothing_never_loses, trace};
use crate::filter::prediction::{
    congruence, congruence_defined, covariance_matrix, linear_state_vector, predicted_state,
    residual, residual_covariance, residual_mat, residual_vec,
};
use crate::filter::utils::{Data, Estimate, SuperData, Transport};
use crate::geometry::traits::{Plane, Transform};
use crate::inverse::{
    inverse_pair, InverseError, is_zero, lemma_q_inverse_is_inverse, q_inverse, singular,
    try_inverse,
};
use crate::matrix::Matrix;
use crate::rational::Rational;
use crate::real_matrix::{
    all_representable, column, identity, lemma_mul_assoc, lemma_mul_distributes_add,
    lemma_mul_identity_left, lemma_mul_shape, lemma_sum_single, lemma_transpose_shape, mat_add,
    mat_mul, mat_sub, mul_defined, q_mat_add, q_mat_mul, q_mat_sub, shaped, sum, transpose,
};

verus! {

/// The measurement model that reads the two local coordinates off a state.
pub open spec fn selector() -> Seq<Seq<real>> {
    seq![
        seq![1real, 0real, 0real, 0real, 0real],
        seq![0real, 1real, 0real, 0real, 0real],
    ]
}

/// The two local coordinates of a state.
pub open spec fn coordinates(state: Seq<Seq<real>>) -> Seq<Seq<real>> {
    state.take(2)
}

/// The gain `c * hᵗ * w`, for a covariance `c`, a model `h` and the inverse
/// `w` of the covariance that the model is weighed against.
pub open spec fn gain(c: Seq<Seq<real>>, h: Seq<Seq<real>>, w: Seq<Seq<real>>) -> Seq<Seq<real>> {
    mat_mul(mat_mul(c, transpose(h)), w)
}

/// The gain in stored numbers.
pub open spec fn q_gain(c: Seq<Seq<real>>, h: Seq<Seq<real>>, w: Seq<Seq<real>>) -> Option<
    Seq<Seq<real>>,
> {
    match q_mat_mul(c, transpose(h)) {
        Some(ch) => q_mat_mul(ch, w),
        None => None,
    }
}

/// The covariance of a residual in stored numbers.
pub open spec fn q_residual_covariance(
    v: Seq<Seq<real>>,
    h: Seq<Seq<real>>,
    c: Seq<Seq<real>>,
) -> Option<Seq<Seq<real>>> {
    if congruence_defined(h, c) && all_representable(residual_covariance(v, h, c)) {
        Some(residual_covariance(v, h, c))
    } else {
        None
    }
}

/// The residual of a hit in stored numbers.
pub open spec fn q_residual(m: Seq<Seq<real>>, h: Seq<Seq<real>>, x: Seq<Seq<real>>) -> Option<
    Seq<Seq<real>>,
> {
    if mul_defined(h, x) && all_representable(residual(m, h, x)) {
        Some(residual(m, h, x))
    } else {
        None
    }
}

/// A state corrected by a gain applied to a difference: `x + k * r`.
pub open spec fn q_corrected_state(x: Seq<Seq<real>>, k: Seq<Seq<real>>, r: Seq<Seq<real>>) -> Option<
    Seq<Seq<real>>,
> {
    match q_mat_mul(k, r) {
        Some(kr) => q_mat_add(x, kr),
        None => None,
    }
}

/// The covariance after a hit has been used: `(1 - k * h) * c`.
pub open spec fn q_filtered_covariance(
    c: Seq<Seq<real>>,
    k: Seq<Seq<real>>,
    h: Seq<Seq<real>>,
) -> Option<Seq<Seq<real>>> {
    match q_mat_mul(k, h) {
        Some(kh) => match q_mat_sub(identity(c.len()), kh) {
            Some(rest) => q_mat_mul(rest, c),
            None => None,
        },
        None => None,
    }
}

/// The covariance after smoothing: `c + a * d * aᵗ`.
pub open spec fn q_smoothed_covariance(
    c: Seq<Seq<real>>,
    a: Seq<Seq<real>>,
    d: Seq<Seq<real>>,
) -> Option<Seq<Seq<real>>> {
    match q_mat_mul(a, d) {
        Some(ad) => match q_mat_mul(ad, transpose(a)) {
            Some(ada) => q_mat_add(c, ada),
            None => None,
        },
        None => None,
    }
}

/// The error of a fit for an inversion that failed: a singular covariance,
/// or numbers that cannot be stored.
pub open spec fn inversion_error(e: InverseError) -> SensorError {
    match e {
        InverseError::Singular => SensorError::SingularMatrix,
        InverseError::Unresolved => SensorError::ArithmeticOverflow,
    }
}

/// What `filter_step` returns: the prediction `(x, c)` updated by the hit
/// `m` of covariance `v`, seen through the model `h`.
///
/// With `s = v + h * c * hᵗ` and the gain `k = c * hᵗ * s⁻¹`, the filtered
/// state is `x + k * (m - h * x)` and its covariance `(1 - k * h) * c`.
#[verifier::opaque]
pub open spec fn q_filtered(
    x: Seq<Seq<real>>,
    c: Seq<Seq<real>>,
    m: Seq<Seq<real>>,
    v: Seq<Seq<real>>,
    h: Seq<Seq<real>>,
) -> Result<Estimate, SensorError> {
    match q_residual_covariance(v, h, c) {
        None => Err(SensorError::ArithmeticOverflow),
        Some(s) => match q_inverse(s) {
            Err(e) => Err(inversion_error(e)),
            Ok(w) => match (q_gain(c, h, w), q_residual(m, h, x)) {
                (Some(k), Some(r)) => match (
                    q_corrected_state(x, k, r),
                    q_filtered_covariance(c, k, h),
                ) {
                    (Some(xf), Some(cf)) => Ok((xf, cf)),
                    _ => Err(SensorError::ArithmeticOverflow),
                },
                _ => Err(SensorError::ArithmeticOverflow),
            },
        },
    }
}

/// What `smooth_step` returns: the filtered estimate `(xf, cf)` of a sensor
/// corrected by the smoothed estimate `(xs, cs)` of the next one, whose
/// prediction was `(xp, cp)` by the transport Jacobian `f`.
///
/// With the gain `a = cf * fᵗ * cp⁻¹`, the smoothed state is
/// `xf + a * (xs - xp)` and its covariance `cf + a * (cs - cp) * aᵗ`.
#[verifier::opaque]
pub open spec fn q_smoothed(
    filtered: Estimate,
    f: Seq<Seq<real>>,
    predicted_next: Estimate,
    smoothed_next: Estimate,
) -> Result<Estimate, SensorError> {
    match q_inverse(predicted_next.1) {
        Err(e) => Err(inversion_error(e)),
        Ok(w) => match (
            q_gain(filtered.1, f, w),
            q_mat_sub(smoothed_next.0, predicted_next.0),
            q_mat_sub(smoothed_next.1, predicted_next.1),
        ) {
            (Some(a), Some(dx), Some(dc)) => match (
                q_corrected_state(filtered.0, a, dx),
                q_smoothed_covariance(filtered.1, a, dc),
            ) {
                (Some(xs), Some(cs)) => Ok((xs, cs)),
                _ => Err(SensorError::ArithmeticOverflow),
            },
            _ => Err(SensorError::ArithmeticOverflow),
        },
    }
}

/// A filtered state that `filter_step` returns is the prediction corrected
/// by the gain, with a covariance weighed by an inverse of the covariance of
/// the residual.
pub proof fn lemma_filtered_is_exact(
    x: Seq<Seq<real>>,
    c: Seq<Seq<real>>,
    m: Seq<Seq<real>>,
    v: Seq<Seq<real>>,
    h: Seq<Seq<real>>,
)
    requires
        shaped(c, 5, 5),
        shaped(h, 2, 5),
        shaped(v, 2, 2),
        q_filtered(x, c, m, v, h) is Ok,
    ensures
        ({
            let s = residual_covariance(v, h, c);
            let w = q_inverse(s)->Ok_0;
            let k = gain(c, h, w);
            &&& q_inverse(s) is Ok
            &&& inverse_pair(w, s, 2)
            &&& q_filtered(x, c, m, v, h)->Ok_0.0 == mat_add(x, mat_mul(k, residual(m, h, x)))
            &&& q_filtered(x, c, m, v, h)->Ok_0.1 == mat_mul(
                mat_sub(identity(5), mat_mul(k, h)),
                c,
            )
        }),
{
    reveal(q_filtered);
    let s = residual_covariance(v, h, c);
    lemma_transpose_shape(h, 2, 5);
    lemma_mul_shape(h, c, 2, 5, 5);
    lemma_mul_shape(mat_mul(h, c), transpose(h), 2, 5, 2);
    assert(shaped(s, 2, 2));
    lemma_q_inverse_is_inverse(s, 2);
}

/// A smoothed estimate that `smooth_step` returns is the filtered one
/// corrected by the gain, which is weighed by an inverse of the predicted
/// covariance.
pub proof fn lemma_smoothed_is_exact(
    filtered: Estimate,
    f: Seq<Seq<real>>,
    predicted_next: Estimate,
    smoothed_next: Estimate,
)
    requires
        shaped(predicted_next.1, 5, 5),
        q_smoothed(filtered, f, predicted_next, smoothed_next) is Ok,
    ensures
        ({
            let w = q_inverse(predicted_next.1)->Ok_0;
            let a = gain(filtered.1, f, w);
            let out = q_smoothed(filtered, f, predicted_next, smoothed_next)->Ok_0;
            &&& q_inverse(predicted_next.1) is Ok
            &&& inverse_pair(w, predicted_next.1, 5)
            &&& out.0 == mat_add(
                filtered.0,
                mat_mul(a, mat_sub(smoothed_next.0, predicted_next.0)),
            )
            &&& out.1 == mat_add(
                filtered.1,
                congruence(a, mat_sub(smoothed_next.1, predicted_next.1)),
            )
        }),
{
    reveal(q_smoothed);
    lemma_q_inverse_is_inverse(predicted_next.1, 5);
}

/// With hits that carry no noise, the filter reproduces the hit: for a hit
/// covariance of zero, the filtered state seen through the measurement model
/// is the hit itself.
pub proof fn lemma_filter_reproduces_hit(
    x: Seq<Seq<real>>,
    c: Seq<Seq<real>>,
    m: Seq<Seq<real>>,
    v: Seq<Seq<real>>,
    h: Seq<Seq<real>>,
)
    requires
        shaped(x, 5, 1),
        shaped(c, 5, 5),
        shaped(m, 2, 1),
        shaped(h, 2, 5),
        shaped(v, 2, 2),
        is_zero(v),
        q_filtered(x, c, m, v, h) is Ok,
    ensures
        mat_mul(h, q_filtered(x, c, m, v, h)->Ok_0.0) == m,
{
    lemma_filtered_is_exact(x, c, m, v, h);
    let s = residual_covariance(v, h, c);
    let w = q_inverse(s)->Ok_0;
    let ht = transpose(h);
    let cht = mat_mul(c, ht);
    let k = gain(c, h, w);
    let r = residual(m, h, x);
    let xf = mat_add(x, mat_mul(k, r));
    let hx = mat_mul(h, x);
    lemma_transpose_shape(h, 2, 5);
    lemma_mul_shape(h, c, 2, 5, 5);
    lemma_mul_shape(c, ht, 5, 5, 2);
    lemma_mul_shape(mat_mul(h, c), ht, 2, 5, 2);
    lemma_mul_shape(cht, w, 5, 2, 2);
    lemma_mul_shape(h, x, 2, 5, 1);
    assert(shaped(r, 2, 1));
    lemma_mul_shape(k, r, 5, 2, 1);
    // with no noise the covariance of the residual is h * c * hᵗ
    let hch = congruence(h, c);
    assert(s =~= hch) by {
        assert forall|i: int| 0 <= i < 2 implies #[trigger] s[i] =~= hch[i] by {
            assert forall|j: int| 0 <= j < 2 implies s[i][j] == hch[i][j] by {
                assert(v[i][j] == 0real);
            }
        }
    }
    // h * k == s * s⁻¹ == 1
    lemma_mul_assoc(h, cht, w, 2, 5, 2, 2);
    lemma_mul_assoc(h, c, ht, 2, 5, 5, 2);
    assert(mat_mul(h, k) == identity(2));
    // h * (x + k * r) == h * x + (h * k) * r == h * x + r
    lemma_mul_distributes_add(h, x, mat_mul(k, r), 2, 5, 1);
    lemma_mul_assoc(h, k, r, 2, 5, 2, 1);
    lemma_mul_identity_left(r, 2, 1);
    let sum = mat_add(hx, r);
    assert(mat_mul(h, xf) == sum);
    assert(sum =~= m) by {
        assert forall|i: int| 0 <= i < 2 implies #[trigger] sum[i] =~= m[i] by {
            assert(sum[i][0] == hx[i][0] + (m[i][0] - hx[i][0]));
        }
    }
}

/// Seen through the model that reads coordinates, a state is its two local
/// coordinates.
pub proof fn lemma_selector_reads_coordinates(x: Seq<Seq<real>>)
    requires
        shaped(x, 5, 1),
    ensures
        mat_mul(selector(), x) == coordinates(x),
{
    let h = selector();
    let p = mat_mul(h, x);
    let want = coordinates(x);
    assert(p.len() == 2 && want.len() == 2);
    assert forall|i: int| 0 <= i < 2 implies #[trigger] p[i] =~= want[i] by {
        let f = |k: int| h[i][k] * column(x, 0)[k];
        assert forall|k: int| 0 <= k < 5 && k != i implies #[trigger] f(k) == 0real by {
            assert(h[i][k] == 0real);
            assert(0real * column(x, 0)[k] == 0real) by (nonlinear_arith);
        }
        lemma_sum_single(5, f, i);
        assert(h[i][i] == 1real);
        assert(column(x, 0)[i] == x[i][0]);
        assert(f(i) == x[i][0]) by (nonlinear_arith)
            requires
                f(i) == h[i][i] * column(x, 0)[i],
                h[i][i] == 1real,
                column(x, 0)[i] == x[i][0],
        ;
        assert(p[i][0] == sum(5, f));
        assert(want[i] == x[i]);
    }
    assert(p =~= want);
}

/// The measurement model that reads the two local coordinates off a state.
pub fn measurement_model() -> (h: Mat2x5)
    ensures
        h@ == selector(),
{
    let zero = Rational::zero();
    let one = Rational::one();
    let h = Matrix::<2, 5>::filled(zero);
    h.shape();
    let h = h.with_entry(0, 0, one);
    let h = h.with_entry(1, 1, one);
    proof {
        let want = selector();
        assert(h@.len() == 2);
        assert(h@[0] =~= want[0]);
        assert(h@[1] =~= want[1]);
        assert(h@ =~= want);
    }
    h
}

/// The inverse of a covariance, with the failure of the inversion turned
/// into that of a fit.
fn inverse_of<const N: usize>(m: &Matrix<N, N>) -> (r: Result<Matrix<N, N>, SensorError>)
    ensures
        match r {
            Ok(w) => q_inverse(m@) == Ok::<Seq<Seq<real>>, InverseError>(w@),
            Err(e) => q_inverse(m@) is Err && e == inversion_error(q_inverse(m@)->Err_0),
        },
{
    match try_inverse(m) {
        Ok(w) => Ok(w),
        Err(InverseError::Singular) => Err(SensorError::SingularMatrix),
        Err(InverseError::Unresolved) => Err(SensorError::ArithmeticOverflow),
    }
}

/// The gain `c * hᵗ * w`.
///
/// `None` exactly when a product cannot be computed in stored numbers.
pub fn gain_matrix<const K: usize>(c: &Mat5, h: &Matrix<K, 5>, w: &Matrix<K, K>) -> (r: Option<
    Matrix<5, K>,
>)
    ensures
        match r {
            Some(k) => q_gain(c@, h@, w@) == Some(k@) && k@ == gain(c@, h@, w@),
            None => q_gain(c@, h@, w@) is None,
        },
{
    let ch = c.mul(&h.transpose())?;
    ch.mul(w)
}

/// `x + k * r`.
fn corrected_state<const K: usize>(x: &Vec5, k: &Matrix<5, K>, r: &Matrix<K, 1>) -> (out: Option<
    Vec5,
>)
    ensures
        match out {
            Some(y) => q_corrected_state(x@, k@, r@) == Some(y@),
            None => q_corrected_state(x@, k@, r@) is None,
        },
{
    let kr = k.mul(r)?;
    x.add(&kr)
}

/// `(1 - k * h) * c`.
fn filtered_covariance(c: &Mat5, k: &Matrix<5, 2>, h: &Mat2x5) -> (out: Option<Mat5>)
    ensures
        match out {
            Some(y) => q_filtered_covariance(c@, k@, h@) == Some(y@),
            None => q_filtered_covariance(c@, k@, h@) is None,
        },
{
    c.shape();
    let kh = k.mul(h)?;
    let rest = Matrix::<5, 5>::identity().sub(&kh)?;
    rest.mul(c)
}

/// `c + a * d * aᵗ`.
fn smoothed_covariance(c: &Mat5, a: &Mat5, d: &Mat5) -> (out: Option<Mat5>)
    ensures
        match out {
            Some(y) => q_smoothed_covariance(c@, a@, d@) == Some(y@),
            None => q_smoothed_covariance(c@, a@, d@) is None,
        },
{
    let ad = a.mul(d)?;
    let ada = ad.mul(&a.transpose())?;
    c.add(&ada)
}

/// Updates a predicted state and its covariance by a hit.
///
/// `x_pred` and `c_pred` are the prediction on a sensor, `hit` the hit on
/// it, `v` the covariance of the hit and `h` the measurement model. The
/// filtered state is `x_pred + k * (hit - h * x_pred)` and its covariance
/// `(1 - k * h) * c_pred`, with the gain `k = c_pred * hᵗ * s⁻¹` and
/// `s = v + h * c_pred * hᵗ`.
///
/// Fails with `SingularMatrix` when `s` is found to have no inverse, and
/// with `ArithmeticOverflow` when a number on the way cannot be stored.
pub fn filter_step(x_pred: &Vec5, c_pred: &Mat5, hit: &Vec2, v: &Mat2, h: &Mat2x5) -> (r: Result<
    (Vec5, Mat5),
    SensorError,
>)
    ensures
        match r {
            Ok((xf, cf)) => q_filtered(x_pred@, c_pred@, hit@, v@, h@) == Ok::<
                Estimate,
                SensorError,
            >((xf@, cf@)),
            Err(e) => q_filtered(x_pred@, c_pred@, hit@, v@, h@) == Err::<Estimate, SensorError>(e),
        },
        is_zero(v@) ==> (r matches Ok((xf, cf)) ==> mat_mul(h@, xf@) == hit@),
        r matches Err(e) ==> (e == SensorError::SingularMatrix ==> singular(
            residual_covariance(v@, h@, c_pred@),
        )),
{
    x_pred.shape();
    c_pred.shape();
    hit.shape();
    v.shape();
    h.shape();
    proof {
        if is_zero(v@) && q_filtered(x_pred@, c_pred@, hit@, v@, h@) is Ok {
            lemma_filter_reproduces_hit(x_pred@, c_pred@, hit@, v@, h@);
        }
    }
    reveal(q_filtered);
    let s = match residual_mat(v, h, c_pred) {
        Some(s) => s,
        None => {
            return Err(SensorError::ArithmeticOverflow);
        },
    };
    s.shape();
    proof {
        lemma_q_inverse_is_inverse(s@, 2);
    }
    let w = inverse_of(&s)?;
    let k = match gain_matrix(c_pred, h, &w) {
        Some(k) => k,
        None => {
            return Err(SensorError::ArithmeticOverflow);
        },
    };
    let residual = match residual_vec(hit, h, x_pred) {
        Some(r) => r,
        None => {
            return Err(SensorError::ArithmeticOverflow);
        },
    };
    let xf = match corrected_state(x_pred, &k, &residual) {
        Some(x) => x,
        None => {
            return Err(SensorError::ArithmeticOverflow);
        },
    };
    let cf = match filtered_covariance(c_pred, &k, h) {
        Some(c) => c,
        None => {
            return Err(SensorError::ArithmeticOverflow);
        },
    };
    Ok((xf, cf))
}

/// Corrects the filtered estimate of a sensor by the smoothed estimate of
/// the next one.
///
/// `x_filt` and `c_filt` are the filtered estimate on the sensor,
/// `jacobian` the transport Jacobian from it to the next sensor,
/// `x_pred_next` and `c_pred_next` the prediction on the next sensor, and
/// `x_smth_next` and `c_smth_next` the smoothed estimate there. The smoothed
/// state is `x_filt + a * (x_smth_next - x_pred_next)` and its covariance
/// `c_filt + a * (c_smth_next - c_pred_next) * aᵗ`, with the gain
/// `a = c_filt * jacobianᵗ * c_pred_next⁻¹`.
///
/// Fails with `SingularMatrix` when `c_pred_next` is found to have no
/// inverse, and with `ArithmeticOverflow` when a number on the way cannot be
/// stored.
pub fn smooth_step(
    x_filt: &Vec5,
    c_filt: &Mat5,
    jacobian: &Mat5,
    x_pred_next: &Vec5,
    c_pred_next: &Mat5,
    x_smth_next: &Vec5,
    c_smth_next: &Mat5,
) -> (r: Result<(Vec5, Mat5), SensorError>)
    ensures
        match r {
            Ok((xs, cs)) => q_smoothed(
                (x_filt@, c_filt@),
                jacobian@,
                (x_pred_next@, c_pred_next@),
                (x_smth_next@, c_smth_next@),
            ) == Ok::<Estimate, SensorError>((xs@, cs@)),
            Err(e) => q_smoothed(
                (x_filt@, c_filt@),
                jacobian@,
                (x_pred_next@, c_pred_next@),
                (x_smth_next@, c_smth_next@),
            ) == Err::<Estimate, SensorError>(e),
        },
        r matches Err(e) ==> (e == SensorError::SingularMatrix ==> singular(c_pred_next@)),
{
    reveal(q_smoothed);
    c_pred_next.shape();
    proof {
        lemma_q_inverse_is_inverse(c_pred_next@, 5);
    }
    let w = inverse_of(c_pred_next)?;
    let a = match gain_matrix(c_filt, jacobian, &w) {
        Some(a) => a,
        None => {
            return Err(SensorError::ArithmeticOverflow);
        },
    };
    let dx = match x_smth_next.sub(x_pred_next) {
        Some(d) => d,
        None => {
            return Err(SensorError::ArithmeticOverflow);
        },
    };
    let dc = match c_smth_next.sub(c_pred_next) {
        Some(d) => d,
        None => {
            return Err(SensorError::ArithmeticOverflow);
        },
    };
    let xs = match corrected_state(x_filt, &a, &dx) {
        Some(x) => x,
        None => {
            return Err(SensorError::ArithmeticOverflow);
        },
    };
    let cs = match smoothed_covariance(c_filt, &a, &dc) {
        Some(c) => c,
        None => {
            return Err(SensorError::ArithmeticOverflow);
        },
    };
    Ok((xs, cs))
}

/// The inputs of a fit, as the mathematics sees them.
pub struct Track<T> {
    /// The sensors, in the order in which the track meets them.
    pub sensors: Seq<T>,
    /// The hit on each sensor.
    pub hits: Seq<Seq<Seq<real>>>,
    /// The direction of the track from each sensor to the next.
    pub directions: Seq<Seq<Seq<real>>>,
    /// The transport Jacobian from each sensor to the next.
    pub jacobians: Seq<Seq<Seq<real>>>,
    /// The state and covariance that the fit starts from.
    pub seed: Estimate,
    /// The covariance of a hit.
    pub noise: Seq<Seq<real>>,
}

/// What the forward pass holds for one sensor.
pub struct Step {
    /// The prediction, before the hit of the sensor was used.
    pub pred: Estimate,
    /// The filtered estimate, with the hit used.
    pub filt: Estimate,
}

/// What `predict_step` returns: the filtered estimate of one sensor carried
/// to the next. The state goes along the straight line to where it meets
/// the next sensor; the covariance is carried along by the Jacobian.
pub open spec fn q_predicted<T: Transform>(
    start: &T,
    end: &T,
    filtered: Estimate,
    direction: Seq<Seq<real>>,
    jacobian: Seq<Seq<real>>,
) -> Result<Estimate, SensorError> {
    match predicted_state(start, end, filtered.0, direction) {
        Err(e) => Err(e),
        Ok(xp) => if congruence_defined(jacobian, filtered.1) {
            Ok((xp, congruence(jacobian, filtered.1)))
        } else {
            Err(SensorError::ArithmeticOverflow)
        },
    }
}

/// The forward pass up to sensor `i`: the prediction there, which on the
/// first sensor is the seed, and the prediction updated by the hit. The
/// first failure on the way is the failure of every later sensor.
pub open spec fn q_forward<T: Transform>(track: Track<T>, i: int) -> Result<Step, SensorError>
    decreases i,
{
    let pred = if i <= 0 {
        Ok(track.seed)
    } else {
        match q_forward(track, i - 1) {
            Err(e) => Err(e),
            Ok(before) => q_predicted(
                &track.sensors[i - 1],
                &track.sensors[i],
                before.filt,
                track.directions[i - 1],
                track.jacobians[i - 1],
            ),
        }
    };
    match pred {
        Err(e) => Err(e),
        Ok(p) => match q_filtered(p.0, p.1, track.hits[i], track.noise, selector()) {
            Err(e) => Err(e),
            Ok(f) => Ok(Step { pred: p, filt: f }),
        },
    }
}

/// The backward pass down to sensor `i`, over the steps of a forward pass
/// that succeeded: on the last sensor the filtered estimate, and before it
/// the filtered estimate corrected by the smoothed one of the next sensor.
pub open spec fn q_backward(jacobians: Seq<Seq<Seq<real>>>, steps: Seq<Step>, i: int) -> Result<
    Estimate,
    SensorError,
>
    decreases steps.len() - i,
{
    if i >= steps.len() - 1 {
        Ok(steps[i].filt)
    } else {
        match q_backward(jacobians, steps, i + 1) {
            Err(e) => Err(e),
            Ok(next) => q_smoothed(steps[i].filt, jacobians[i], steps[i + 1].pred, next),
        }
    }
}

/// The steps of a forward pass over `n` sensors that succeeded.
pub open spec fn forward_steps<T: Transform>(track: Track<T>, n: nat) -> Seq<Step> {
    Seq::new(n, |i: int| q_forward(track, i)->Ok_0)
}

/// `out` is the fit of `track`: for every sensor its three estimates are
/// those of the forward and of the backward pass.
pub open spec fn fitted<T: Transform>(
    track: Track<T>,
    pred: Seq<Estimate>,
    filt: Seq<Estimate>,
    smth: Seq<Estimate>,
) -> bool {
    let n = track.sensors.len();
    &&& pred.len() == n
    &&& filt.len() == n
    &&& smth.len() == n
    &&& forall|i: int|
        0 <= i < n ==> #[trigger] q_forward(track, i) == Ok::<Step, SensorError>(
            Step { pred: pred[i], filt: filt[i] },
        )
    &&& forall|i: int|
        0 <= i < n ==> #[trigger] q_backward(track.jacobians, forward_steps(track, n), i) == Ok::<
            Estimate,
            SensorError,
        >(smth[i])
}

/// The error of a fit that fails: the first failure of the forward pass, or
/// with the forward pass done, the first failure of the backward pass.
pub open spec fn fit_error<T: Transform>(track: Track<T>) -> Option<SensorError> {
    let n = track.sensors.len();
    if n == 0 {
        None
    } else {
        match q_forward(track, n - 1) {
            Err(e) => Some(e),
            Ok(_) => match q_backward(track.jacobians, forward_steps(track, n), 0) {
                Err(e) => Some(e),
                Ok(_) => None,
            },
        }
    }
}

/// A failure of the forward pass is the failure of every later sensor.
pub proof fn lemma_forward_failure_stays<T: Transform>(track: Track<T>, i: int, j: int)
    requires
        0 <= i <= j,
        q_forward(track, i) is Err,
    ensures
        q_forward(track, j) == q_forward(track, i),
    decreases j - i,
{
    if i < j {
        lemma_forward_failure_stays(track, i, j - 1);
    }
}

/// A forward pass that reaches a sensor has passed every sensor before it.
pub proof fn lemma_forward_success_before<T: Transform>(track: Track<T>, i: int, j: int)
    requires
        0 <= i <= j,
        q_forward(track, j) is Ok,
    ensures
        q_forward(track, i) is Ok,
{
    if q_forward(track, i) is Err {
        lemma_forward_failure_stays(track, i, j);
    }
}

/// A failure of the backward pass is the failure of every earlier sensor.
pub proof fn lemma_backward_failure_stays(
    jacobians: Seq<Seq<Seq<real>>>,
    steps: Seq<Step>,
    i: int,
    j: int,
)
    requires
        0 <= i <= j < steps.len(),
        q_backward(jacobians, steps, j) is Err,
    ensures
        q_backward(jacobians, steps, i) == q_backward(jacobians, steps, j),
    decreases j - i,
{
    if i < j {
        lemma_backward_failure_stays(jacobians, steps, i + 1, j);
    }
}

/// The Jacobians of the transports between `n` sensors are square matrices
/// of size five.
pub open spec fn jacobians_shaped(jacobians: Seq<Seq<Seq<real>>>, n: nat) -> bool {
    forall|k: int| 0 <= k < n - 1 ==> shaped(#[trigger] jacobians[k], 5, 5)
}

/// The directions of the transports.
pub open spec fn directions_of(transports: Seq<Transport>) -> Seq<Seq<Seq<real>>> {
    Seq::new(transports.len(), |i: int| transports[i].direction@)
}

/// The Jacobians of the transports.
pub open spec fn jacobians_of(transports: Seq<Transport>) -> Seq<Seq<Seq<real>>> {
    Seq::new(transports.len(), |i: int| transports[i].jacobian@)
}

/// The views of the hits.
pub open spec fn hits_of(hits: Seq<Vec2>) -> Seq<Seq<Seq<real>>> {
    Seq::new(hits.len(), |i: int| hits[i]@)
}

/// Carries the filtered estimate of one sensor to the next.
///
/// The state is moved along the straight line of the transport to where it
/// meets `end_sensor`; the covariance is carried along by the Jacobian of
/// the transport. A track that does not meet the sensor is given up with
/// `OutsideSensorBounds`.
pub fn predict_step<T: Transform + Plane>(
    start_sensor: &T,
    end_sensor: &T,
    x_filt: &Vec5,
    c_filt: &Mat5,
    transport: &Transport,
) -> (r: Result<(Vec5, Mat5), SensorError>)
    ensures
        match r {
            Ok((xp, cp)) => q_predicted(
                start_sensor,
                end_sensor,
                (x_filt@, c_filt@),
                transport.direction@,
                transport.jacobian@,
            ) == Ok::<Estimate, SensorError>((xp@, cp@)),
            Err(e) => q_predicted(
                start_sensor,
                end_sensor,
                (x_filt@, c_filt@),
                transport.direction@,
                transport.jacobian@,
            ) == Err::<Estimate, SensorError>(e),
        },
{
    let xp = linear_state_vector(start_sensor, end_sensor, x_filt, &transport.direction)?;
    match covariance_matrix(&transport.jacobian, c_filt) {
        Some(cp) => Ok((xp, cp)),
        None => Err(SensorError::ArithmeticOverflow),
    }
}

/// The steps that a forward pass has left in its two bundles.
pub open spec fn steps_of(pred: Seq<Estimate>, filt: Seq<Estimate>) -> Seq<Step> {
    Seq::new(pred.len(), |i: int| Step { pred: pred[i], filt: filt[i] })
}

/// The track that `filter` and `run` are given.
pub open spec fn track_of<T>(
    start: Vec5,
    cov: Mat5,
    hits: Seq<Vec2>,
    sensors: Seq<T>,
    transports: Seq<Transport>,
    v: Mat2,
) -> Track<T> {
    Track {
        sensors: sensors,
        hits: hits_of(hits),
        directions: directions_of(transports),
        jacobians: jacobians_of(transports),
        seed: (start@, cov@),
        noise: v@,
    }
}

/// The forward pass of a fit: on every sensor the prediction and the
/// estimate filtered by the hit of that sensor.
///
/// The prediction on the first sensor is the state `start` with covariance
/// `cov`. The first failure ends the pass.
pub fn filter<T: Transform + Plane>(
    start: &Vec5,
    cov: &Mat5,
    hits: &Vec<Vec2>,
    sensors: &Vec<T>,
    transports: &Vec<Transport>,
    v: &Mat2,
) -> (r: Result<(Data, Data), SensorError>)
    requires
        hits.len() == sensors.len(),
        transports.len() + 1 == sensors.len() || (transports.len() == 0 && sensors.len() == 0),
    ensures
        ({
            let track = track_of(*start, *cov, hits@, sensors@, transports@, *v);
            let n = sensors.len();
            match r {
                Ok((pred, filt)) => {
                    &&& pred.wf()
                    &&& filt.wf()
                    &&& pred@.len() == n
                    &&& filt@.len() == n
                    &&& forall|i: int|
                        0 <= i < n ==> #[trigger] q_forward(track, i) == Ok::<Step, SensorError>(
                            Step { pred: pred@[i], filt: filt@[i] },
                        )
                    &&& is_zero(v@) ==> forall|i: int|
                        0 <= i < n ==> coordinates((#[trigger] filt@[i]).0) == hits[i]@
                    &&& jacobians_shaped(track.jacobians, n as nat)
                },
                Err(e) => n > 0 && q_forward(track, n - 1) == Err::<Step, SensorError>(e),
            }
        }),
{
    let ghost track = track_of(*start, *cov, hits@, sensors@, transports@, *v);
    let n = sensors.len();
    let h = measurement_model();
    let mut pred = Data::new();
    let mut filt = Data::new();
    let mut i: usize = 0;
    while i < n
        invariant
            i <= n,
            n == sensors.len(),
            hits.len() == n,
            transports.len() + 1 == n || (transports.len() == 0 && n == 0),
            h@ == selector(),
            track == track_of(*start, *cov, hits@, sensors@, transports@, *v),
            pred.wf(),
            filt.wf(),
            pred@.len() == i,
            filt@.len() == i,
            forall|k: int|
                0 <= k < i ==> #[trigger] q_forward(track, k) == Ok::<Step, SensorError>(
                    Step { pred: pred@[k], filt: filt@[k] },
                ),
            is_zero(v@) ==> forall|k: int|
                0 <= k < i ==> coordinates((#[trigger] filt@[k]).0) == hits[k]@,
            jacobians_shaped(track.jacobians, i as nat),
        decreases n - i,
    {
        let predicted = if i == 0 {
            Ok((start.duplicate(), cov.duplicate()))
        } else {
            transports[i - 1].jacobian.shape();
            assert(track.jacobians[i as int - 1] == transports[i as int - 1].jacobian@);
            assert(q_forward(track, i as int - 1) == Ok::<Step, SensorError>(
                Step { pred: pred@[i as int - 1], filt: filt@[i as int - 1] },
            ));
            predict_step(
                &sensors[i - 1],
                &sensors[i],
                &filt.state_vec[i - 1],
                &filt.cov_mat[i - 1],
                &transports[i - 1],
            )
        };
        let (xp, cp) = match predicted {
            Ok(p) => p,
            Err(e) => {
                proof {
                    assert(q_forward(track, i as int) == Err::<Step, SensorError>(e));
                    lemma_forward_failure_stays(track, i as int, n as int - 1);
                }
                return Err(e);
            },
        };
        let (xf, cf) = match filter_step(&xp, &cp, &hits[i], v, &h) {
            Ok(f) => f,
            Err(e) => {
                proof {
                    assert(q_forward(track, i as int) == Err::<Step, SensorError>(e));
                    lemma_forward_failure_stays(track, i as int, n as int - 1);
                }
                return Err(e);
            },
        };
        xf.shape();
        proof {
            assert(q_forward(track, i as int) == Ok::<Step, SensorError>(
                Step { pred: (xp@, cp@), filt: (xf@, cf@) },
            ));
            lemma_selector_reads_coordinates(xf@);
        }
        pred.push(xp, cp);
        filt.push(xf, cf);
        i = i + 1;
    }
    Ok((pred, filt))
}

/// The smoothed estimate of the sensor `at`, from the estimates of the
/// forward pass and the smoothed estimate of the sensor after it, if there
/// is one.
fn smooth_at(
    pred: &Data,
    filt: &Data,
    transports: &Vec<Transport>,
    at: usize,
    next: Option<(&Vec5, &Mat5)>,
) -> (r: Result<(Vec5, Mat5), SensorError>)
    requires
        pred.wf(),
        filt.wf(),
        pred@.len() == filt@.len(),
        at < filt@.len(),
        transports.len() + 1 == filt@.len(),
        at + 1 == filt@.len() <==> next is None,
        next matches Some((xs, cs)) ==> q_backward(
            jacobians_of(transports@),
            steps_of(pred@, filt@),
            at + 1,
        ) == Ok::<Estimate, SensorError>((xs@, cs@)),
    ensures
        match r {
            Ok((xs, cs)) => q_backward(jacobians_of(transports@), steps_of(pred@, filt@), at as int)
                == Ok::<Estimate, SensorError>((xs@, cs@)),
            Err(e) => q_backward(jacobians_of(transports@), steps_of(pred@, filt@), at as int)
                == Err::<Estimate, SensorError>(e),
        },
        at + 1 == filt@.len() ==> r is Ok && (r->Ok_0.0@, r->Ok_0.1@) == filt@[at as int],
{
    let ghost steps = steps_of(pred@, filt@);
    assert(steps[at as int] == (Step { pred: pred@[at as int], filt: filt@[at as int] }));
    match next {
        None => Ok((filt.state_vec[at].duplicate(), filt.cov_mat[at].duplicate())),
        Some((xs, cs)) => {
            assert(steps[at as int + 1] == (Step {
                pred: pred@[at as int + 1],
                filt: filt@[at as int + 1],
            }));
            assert(jacobians_of(transports@)[at as int] == transports[at as int].jacobian@);
            smooth_step(
                &filt.state_vec[at],
                &filt.cov_mat[at],
                &transports[at].jacobian,
                &pred.state_vec[at + 1],
                &pred.cov_mat[at + 1],
                xs,
                cs,
            )
        },
    }
}

/// The backward pass of a fit: every filtered estimate corrected by what
/// the sensors after it have seen.
///
/// `pred` and `filt` are the two bundles of a forward pass, and
/// `transports` the transports it went by. On the last sensor the smoothed
/// estimate is the filtered one. The first failure ends the pass.
pub fn smooth(pred: &Data, filt: &Data, transports: &Vec<Transport>) -> (r: Result<
    Data,
    SensorError,
>)
    requires
        pred.wf(),
        filt.wf(),
        pred@.len() == filt@.len(),
        transports.len() + 1 == filt@.len() || (transports.len() == 0 && filt@.len() == 0),
    ensures
        ({
            let n = filt@.len();
            let steps = steps_of(pred@, filt@);
            match r {
                Ok(smth) => {
                    &&& smth.wf()
                    &&& smth@.len() == n
                    &&& forall|i: int|
                        0 <= i < n ==> #[trigger] q_backward(jacobians_of(transports@), steps, i)
                            == Ok::<Estimate, SensorError>(smth@[i])
                    &&& n > 0 ==> smth@[n - 1] == filt@[n - 1]
                },
                Err(e) => n > 0 && q_backward(jacobians_of(transports@), steps, 0) == Err::<
                    Estimate,
                    SensorError,
                >(e),
            }
        }),
{
    let n = filt.len();
    let ghost steps = steps_of(pred@, filt@);
    let ghost jacs = jacobians_of(transports@);
    // the estimates are found from the last sensor down
    let mut back_states: Vec<Vec5> = Vec::new();
    let mut back_covs: Vec<Mat5> = Vec::new();
    let mut done: usize = 0;
    while done < n
        invariant
            done <= n,
            n == filt@.len(),
            pred.wf(),
            filt.wf(),
            pred@.len() == filt@.len(),
            transports.len() + 1 == n || (transports.len() == 0 && n == 0),
            steps == steps_of(pred@, filt@),
            jacs == jacobians_of(transports@),
            back_states.len() == done,
            back_covs.len() == done,
            forall|j: int|
                n - done <= j < n ==> #[trigger] q_backward(jacs, steps, j) == Ok::<
                    Estimate,
                    SensorError,
                >((back_states[n - 1 - j]@, back_covs[n - 1 - j]@)),
            done > 0 ==> (back_states[0]@, back_covs[0]@) == filt@[n - 1],
        decreases n - done,
    {
        let at: usize = n - 1 - done;
        let step = if done == 0 {
            smooth_at(pred, filt, transports, at, None)
        } else {
            assert(q_backward(jacs, steps, at as int + 1) == Ok::<Estimate, SensorError>(
                (back_states[n - 1 - (at as int + 1)]@, back_covs[n - 1 - (at as int + 1)]@),
            ));
            smooth_at(
                pred,
                filt,
                transports,
                at,
                Some((&back_states[done - 1], &back_covs[done - 1])),
            )
        };
        match step {
            Ok((xs, cs)) => {
                let ghost old_states = back_states@;
                let ghost old_covs = back_covs@;
                back_states.push(xs);
                back_covs.push(cs);
                proof {
                    assert forall|j: int| n - (done + 1) <= j < n implies #[trigger] q_backward(
                        jacs,
                        steps,
                        j,
                    ) == Ok::<Estimate, SensorError>(
                        (back_states[n - 1 - j]@, back_covs[n - 1 - j]@),
                    ) by {
                        if j > at {
                            assert(back_states[n - 1 - j] == old_states[n - 1 - j]);
                            assert(back_covs[n - 1 - j] == old_covs[n - 1 - j]);
                        }
                    }
                }
            },
            Err(e) => {
                proof {
                    lemma_backward_failure_stays(jacs, steps, 0, at as int);
                }
                return Err(e);
            },
        }
        done = done + 1;
    }
    // and handed out in the order of the sensors
    let mut smth = Data::new();
    let mut k: usize = 0;
    while k < n
        invariant
            k <= n,
            back_states.len() == n,
            back_covs.len() == n,
            smth.wf(),
            smth@.len() == k,
            forall|j: int|
                0 <= j < k ==> #[trigger] smth@[j] == (back_states[n - 1 - j]@, back_covs[n - 1 - j]@),
        decreases n - k,
    {
        smth.push(back_states[n - 1 - k].duplicate(), back_covs[n - 1 - k].duplicate());
        k = k + 1;
    }
    proof {
        assert forall|j: int| 0 <= j < n implies #[trigger] q_backward(jacs, steps, j) == Ok::<
            Estimate,
            SensorError,
        >(smth@[j]) by {
            assert(smth@[j] == (back_states[n - 1 - j]@, back_covs[n - 1 - j]@));
        }
        if n > 0 {
            assert(smth@[n as int - 1] == (back_states[0]@, back_covs[0]@));
        }
    }
    Ok(smth)
}

/// Fits a straight track to the hits on a row of sensors.
///
/// The forward pass starts from the state `start` with covariance `cov` as
/// the prediction on the first sensor. On every sensor the prediction is
/// updated by the hit of that sensor, and the filtered estimate is carried
/// to the next sensor by the transport between the two. The backward pass
/// then runs from the last sensor to the first and corrects every filtered
/// estimate by the smoothed estimate of the sensor after it; on the last
/// sensor the smoothed estimate is the filtered one. With a single sensor
/// there is nothing to smooth, and with none the three passes are empty.
///
/// The first failure ends the fit: no estimate is returned for a track that
/// leaves a sensor, meets a singular covariance, or leaves the numbers that
/// can be stored.
///
/// Hits without noise are reproduced by the filtered states. Started from a
/// covariance, with hits whose noise is a covariance, smoothing never widens
/// an estimate: the trace of a smoothed covariance is at most that of the
/// filtered covariance of the same sensor.
pub fn run<T: Transform + Plane>(
    start: &Vec5,
    cov: &Mat5,
    hits: &Vec<Vec2>,
    sensors: &Vec<T>,
    transports: &Vec<Transport>,
    v: &Mat2,
) -> (r: Result<SuperData, SensorError>)
    requires
        hits.len() == sensors.len(),
        transports.len() + 1 == sensors.len() || (transports.len() == 0 && sensors.len() == 0),
    ensures
        ({
            let track = track_of(*start, *cov, hits@, sensors@, transports@, *v);
            match r {
                Ok(out) => {
                    &&& fit_error(track) is None
                    &&& fitted(track, out.pred@, out.filt@, out.smth@)
                    &&& sensors.len() > 0 ==> out.smth@[sensors.len() - 1] == out.filt@[sensors.len()
                        - 1]
                    &&& is_zero(v@) ==> forall|i: int|
                        0 <= i < sensors.len() ==> coordinates((#[trigger] out.filt@[i]).0)
                            == hits[i]@
                    &&& covariance(cov@, 5) && covariance(v@, 2) ==> forall|i: int|
                        0 <= i < sensors.len() ==> trace((#[trigger] out.smth@[i]).1) <= trace(
                            out.filt@[i].1,
                        )
                },
                Err(e) => fit_error(track) == Some(e),
            }
        }),
{
    let ghost track = track_of(*start, *cov, hits@, sensors@, transports@, *v);
    let ghost n = sensors.len() as nat;
    let (pred, filt) = filter(start, cov, hits, sensors, transports, v)?;
    proof {
        let steps = forward_steps(track, n);
        assert forall|k: int| 0 <= k < n implies #[trigger] steps[k] == steps_of(pred@, filt@)[k] by {
            assert(q_forward(track, k) == Ok::<Step, SensorError>(
                Step { pred: pred@[k], filt: filt@[k] },
            ));
        }
        assert(steps =~= steps_of(pred@, filt@));
        if n > 0 {
            assert(q_forward(track, n - 1) == Ok::<Step, SensorError>(
                Step { pred: pred@[n - 1], filt: filt@[n - 1] },
            ));
        }
    }
    let smth = smooth(&pred, &filt, transports)?;
    proof {
        if covariance(cov@, 5) && covariance(v@, 2) {
            assert forall|i: int| 0 <= i < n implies trace((#[trigger] smth@[i]).1) <= trace(
                filt@[i].1,
            ) by {
                lemma_smoothing_never_loses(track, i);
                assert(q_forward(track, i) == Ok::<Step, SensorError>(
                    Step { pred: pred@[i], filt: filt@[i] },
                ));
            }
        }
    }
    Ok(SuperData { pred, filt, smth })
}

} // verus!
