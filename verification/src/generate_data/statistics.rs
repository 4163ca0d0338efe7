//! Residuals of fitted tracks against the truth.
use vstd::prelude::*;
use crate::config::{Vec2, Vec5};
use crate::filter::linear::{coordinates, hits_of};
use crate::filter::utils::SuperData;
use crate::generate_data::structs::{KFData, Residuals};
use crate::real_matrix::{all_representable, mat_sub};

verus! {

/// The views of a row of states.
pub open spec fn states_of(states: Seq<Vec5>) -> Seq<Seq<Seq<real>>> {
    Seq::new(states.len(), |i: int| states[i]@)
}

/// The local coordinates of every state of a row.
pub open spec fn hits_of_states(states: Seq<Seq<Seq<real>>>) -> Seq<Seq<Seq<real>>> {
    Seq::new(states.len(), |i: int| coordinates(states[i]))
}

/// The first `n` differences `a[i] - b[i]` can all be stored.
pub open spec fn differences_defined(
    a: Seq<Seq<Seq<real>>>,
    b: Seq<Seq<Seq<real>>>,
    n: nat,
) -> bool {
    forall|i: int| 0 <= i < n ==> all_representable(#[trigger] mat_sub(a[i], b[i]))
}

/// The first `n` differences `a[i] - b[i]`.
pub open spec fn differences(a: Seq<Seq<Seq<real>>>, b: Seq<Seq<Seq<real>>>, n: nat) -> Seq<
    Seq<Seq<real>>,
> {
    Seq::new(n, |i: int| mat_sub(a[i], b[i]))
}

/// The smaller of two lengths.
pub open spec fn shorter(a: nat, b: nat) -> nat {
    if a <= b {
        a
    } else {
        b
    }
}

/// The smaller of two lengths.
fn min_len(a: usize, b: usize) -> (m: usize)
    ensures
        m == shorter(a as nat, b as nat),
{
    if a <= b {
        a
    } else {
        b
    }
}

/// The differences `a[i] - b[i]` for the first `n` places.
///
/// `None` exactly when one of them cannot be stored.
fn subtract_all(a: &Vec<Vec2>, b: &Vec<Vec2>, n: usize) -> (r: Option<Vec<Vec2>>)
    requires
        n <= a.len(),
        n <= b.len(),
    ensures
        match r {
            Some(d) => hits_of(d@) == differences(hits_of(a@), hits_of(b@), n as nat)
                && differences_defined(hits_of(a@), hits_of(b@), n as nat),
            None => !differences_defined(hits_of(a@), hits_of(b@), n as nat),
        },
{
    let ghost av = hits_of(a@);
    let ghost bv = hits_of(b@);
    let mut out: Vec<Vec2> = Vec::new();
    let mut i: usize = 0;
    while i < n
        invariant
            i <= n,
            n <= a.len(),
            n <= b.len(),
            av == hits_of(a@),
            bv == hits_of(b@),
            out.len() == i,
            forall|k: int| 0 <= k < i ==> (#[trigger] out[k])@ == mat_sub(av[k], bv[k]),
            forall|k: int| 0 <= k < i ==> all_representable(#[trigger] mat_sub(av[k], bv[k])),
        decreases n - i,
    {
        assert(av[i as int] == a[i as int]@ && bv[i as int] == b[i as int]@);
        match a[i].sub(&b[i]) {
            Some(d) => {
                let ghost before = out@;
                out.push(d);
                assert(out@[i as int] == d);
                assert(forall|k: int| 0 <= k < i ==> out[k] == before[k]);
            },
            None => {
                return None;
            },
        }
        i = i + 1;
    }
    assert(hits_of(out@) =~= differences(av, bv, n as nat));
    Some(out)
}

/// The two local coordinates of a state, as a hit.
pub fn vec5_to_vec2_one(vec: &Vec5) -> (r: Vec2)
    ensures
        r@ == coordinates(vec@),
{
    vec.top_rows::<2>()
}

/// The local coordinates of every state of a row.
pub fn vec5_to_vec2_all(vector_sv: &Vec<Vec5>) -> (r: Vec<Vec2>)
    ensures
        hits_of(r@) == hits_of_states(states_of(vector_sv@)),
{
    let mut out: Vec<Vec2> = Vec::new();
    let mut i: usize = 0;
    while i < vector_sv.len()
        invariant
            i <= vector_sv.len(),
            out.len() == i,
            forall|k: int| 0 <= k < i ==> (#[trigger] out[k])@ == coordinates(vector_sv[k]@),
        decreases vector_sv.len() - i,
    {
        out.push(vec5_to_vec2_one(&vector_sv[i]));
        i = i + 1;
    }
    assert(hits_of(out@) =~= hits_of_states(states_of(vector_sv@)));
    out
}

/// The residuals of fitted states against the true hits: for every true hit
/// the local coordinates of the state on that sensor, less the hit.
///
/// There must be a state for every true hit. `None` exactly when a residual
/// cannot be stored.
pub fn calc_residual(state_vectors: &Vec<Vec5>, truth_points: &Vec<Vec2>, pull_distr: bool) -> (r:
    Option<Vec<Vec2>>)
    requires
        truth_points.len() <= state_vectors.len(),
    ensures
        match r {
            Some(d) => hits_of(d@) == differences(
                hits_of_states(states_of(state_vectors@)),
                hits_of(truth_points@),
                truth_points.len() as nat,
            ) && differences_defined(
                hits_of_states(states_of(state_vectors@)),
                hits_of(truth_points@),
                truth_points.len() as nat,
            ),
            None => !differences_defined(
                hits_of_states(states_of(state_vectors@)),
                hits_of(truth_points@),
                truth_points.len() as nat,
            ),
        },
{
    let len = truth_points.len();
    let kf_hits = vec5_to_vec2_all(state_vectors);
    assert(kf_hits.len() == hits_of(kf_hits@).len());
    subtract_all(&kf_hits, truth_points, len)
}

/// The residuals of the hits as they were smeared: every true hit less its
/// smeared counterpart, for as many hits as both rows hold.
///
/// `None` exactly when a residual cannot be stored.
pub fn smear_residuals<T>(kf_data: &KFData<T>) -> (r: Option<Vec<Vec2>>)
    ensures
        ({
            let n = shorter(kf_data.truth_hits.len() as nat, kf_data.smear_hits.len() as nat);
            match r {
                Some(d) => hits_of(d@) == differences(
                    hits_of(kf_data.truth_hits@),
                    hits_of(kf_data.smear_hits@),
                    n,
                ) && differences_defined(
                    hits_of(kf_data.truth_hits@),
                    hits_of(kf_data.smear_hits@),
                    n,
                ),
                None => !differences_defined(
                    hits_of(kf_data.truth_hits@),
                    hits_of(kf_data.smear_hits@),
                    n,
                ),
            }
        }),
{
    let smears = &kf_data.smear_hits;
    let truths = &kf_data.truth_hits;
    subtract_all(truths, smears, min_len(truths.len(), smears.len()))
}

/// The three rows of residuals of one fit against the true hits of its
/// track: the predicted, the filtered and the smoothed states, each less the
/// truth.
pub open spec fn residuals_of_fit(truth: Seq<Seq<Seq<real>>>, fit: SuperData) -> Option<
    (Seq<Seq<Seq<real>>>, Seq<Seq<Seq<real>>>, Seq<Seq<Seq<real>>>),
> {
    let n = truth.len();
    let pred = hits_of_states(states_of(fit.pred.state_vec@));
    let filt = hits_of_states(states_of(fit.filt.state_vec@));
    let smth = hits_of_states(states_of(fit.smth.state_vec@));
    if differences_defined(pred, truth, n) && differences_defined(filt, truth, n)
        && differences_defined(smth, truth, n) {
        Some((differences(pred, truth, n), differences(filt, truth, n), differences(smth, truth, n)))
    } else {
        None
    }
}

/// The residuals of one fit against the true hits of its track, for the
/// predicted, the filtered and the smoothed states.
///
/// Each pass must hold a state for every true hit. `None` exactly when a
/// residual cannot be stored.
pub fn create_residuals<T>(truth_data: &KFData<T>, kf_data: &SuperData, pull_distr: bool) -> (r:
    Option<(Vec<Vec2>, Vec<Vec2>, Vec<Vec2>)>)
    requires
        truth_data.truth_hits.len() <= kf_data.pred.state_vec.len(),
        truth_data.truth_hits.len() <= kf_data.filt.state_vec.len(),
        truth_data.truth_hits.len() <= kf_data.smth.state_vec.len(),
    ensures
        match r {
            Some((p, f, s)) => residuals_of_fit(hits_of(truth_data.truth_hits@), *kf_data) == Some(
                (hits_of(p@), hits_of(f@), hits_of(s@)),
            ),
            None => residuals_of_fit(hits_of(truth_data.truth_hits@), *kf_data) is None,
        },
{
    let truth_points = &truth_data.truth_hits;
    let pred_res = calc_residual(&kf_data.pred.state_vec, truth_points, pull_distr)?;
    let filt_res = calc_residual(&kf_data.filt.state_vec, truth_points, pull_distr)?;
    let smth_resid = calc_residual(&kf_data.smth.state_vec, truth_points, pull_distr)?;
    Some((pred_res, filt_res, smth_resid))
}

/// Every fit holds a state for every true hit of its track.
pub open spec fn complete<T>(data: Seq<(KFData<T>, SuperData)>) -> bool {
    forall|i: int|
        0 <= i < data.len() ==> {
            &&& (#[trigger] data[i]).0.truth_hits.len() <= data[i].1.pred.state_vec.len()
            &&& data[i].0.truth_hits.len() <= data[i].1.filt.state_vec.len()
            &&& data[i].0.truth_hits.len() <= data[i].1.smth.state_vec.len()
        }
}

/// The residuals of every fit of a set against the truth of its track.
///
/// `None` exactly when a residual of some fit cannot be stored.
pub fn fetch_kf_residuals_all<T>(create_statistics_data: &Vec<(KFData<T>, SuperData)>) -> (r:
    Option<Vec<(Vec<Vec2>, Vec<Vec2>, Vec<Vec2>)>>)
    requires
        complete(create_statistics_data@),
    ensures
        match r {
            Some(all) => all.len() == create_statistics_data.len() && forall|i: int|
                0 <= i < all.len() ==> residuals_of_fit(
                    hits_of(create_statistics_data[i].0.truth_hits@),
                    create_statistics_data[i].1,
                ) == Some(
                    (
                        hits_of((#[trigger] all[i]).0@),
                        hits_of(all[i].1@),
                        hits_of(all[i].2@),
                    ),
                ),
            None => exists|i: int|
                0 <= i < create_statistics_data.len() && #[trigger] residuals_of_fit(
                    hits_of(create_statistics_data[i].0.truth_hits@),
                    create_statistics_data[i].1,
                ) is None,
        },
{
    let mut out: Vec<(Vec<Vec2>, Vec<Vec2>, Vec<Vec2>)> = Vec::new();
    let mut i: usize = 0;
    while i < create_statistics_data.len()
        invariant
            i <= create_statistics_data.len(),
            complete(create_statistics_data@),
            out.len() == i,
            forall|k: int|
                0 <= k < i ==> residuals_of_fit(
                    hits_of(create_statistics_data[k].0.truth_hits@),
                    create_statistics_data[k].1,
                ) == Some(
                    (hits_of((#[trigger] out[k]).0@), hits_of(out[k].1@), hits_of(out[k].2@)),
                ),
        decreases create_statistics_data.len() - i,
    {
        let entry = &create_statistics_data[i];
        assert(create_statistics_data@[i as int] == *entry);
        match create_residuals(&entry.0, &entry.1, false) {
            Some(res) => {
                let ghost before = out@;
                out.push(res);
                assert(forall|k: int| 0 <= k < i ==> out[k] == before[k]);
            },
            None => {
                return None;
            },
        }
        i = i + 1;
    }
    Some(out)
}

/// The residuals of the truth against one fit, sensor by sensor: for as many
/// sensors as the truth and all three passes hold, the true hit less the
/// predicted, the filtered and the smoothed coordinates.
pub open spec fn truth_residuals(truth: Seq<Seq<Seq<real>>>, fit: SuperData) -> Option<
    (Seq<Seq<Seq<real>>>, Seq<Seq<Seq<real>>>, Seq<Seq<Seq<real>>>),
> {
    let pred = hits_of_states(states_of(fit.pred.state_vec@));
    let filt = hits_of_states(states_of(fit.filt.state_vec@));
    let smth = hits_of_states(states_of(fit.smth.state_vec@));
    let n = shorter(shorter(truth.len(), pred.len()), shorter(filt.len(), smth.len()));
    if differences_defined(truth, pred, n) && differences_defined(truth, filt, n)
        && differences_defined(truth, smth, n) {
        Some((differences(truth, pred, n), differences(truth, filt, n), differences(truth, smth, n)))
    } else {
        None
    }
}

/// The residuals of the truth against one fit, in the three rows of a
/// record.
fn truth_residuals_of<T>(truth_data: &KFData<T>, kf_out: &SuperData) -> (r: Option<Residuals>)
    ensures
        match r {
            Some(res) => truth_residuals(hits_of(truth_data.truth_hits@), *kf_out) == Some(
                (hits_of(res.pred@), hits_of(res.filt@), hits_of(res.smth@)),
            ),
            None => truth_residuals(hits_of(truth_data.truth_hits@), *kf_out) is None,
        },
{
    let truth_vals = &truth_data.truth_hits;
    let prediction = vec5_to_vec2_all(&kf_out.pred.state_vec);
    let filtered = vec5_to_vec2_all(&kf_out.filt.state_vec);
    let smoothed = vec5_to_vec2_all(&kf_out.smth.state_vec);
    assert(prediction.len() == hits_of(prediction@).len());
    assert(filtered.len() == hits_of(filtered@).len());
    assert(smoothed.len() == hits_of(smoothed@).len());
    let n = min_len(
        min_len(truth_vals.len(), prediction.len()),
        min_len(filtered.len(), smoothed.len()),
    );
    let p_ = subtract_all(truth_vals, &prediction, n)?;
    let f_ = subtract_all(truth_vals, &filtered, n)?;
    let s_ = subtract_all(truth_vals, &smoothed, n)?;
    Some(Residuals { smth: s_, filt: f_, pred: p_ })
}

/// The residuals of the truth against every fit of a set.
///
/// `None` exactly when a residual of some fit cannot be stored.
pub fn truth_kf_output_residuals<T>(output: Vec<(KFData<T>, SuperData)>) -> (r: Option<
    Vec<Residuals>,
>)
    ensures
        match r {
            Some(all) => all.len() == output.len() && forall|i: int|
                0 <= i < all.len() ==> truth_residuals(
                    hits_of(output[i].0.truth_hits@),
                    output[i].1,
                ) == Some(
                    (
                        hits_of((#[trigger] all[i]).pred@),
                        hits_of(all[i].filt@),
                        hits_of(all[i].smth@),
                    ),
                ),
            None => exists|i: int|
                0 <= i < output.len() && #[trigger] truth_residuals(
                    hits_of(output[i].0.truth_hits@),
                    output[i].1,
                ) is None,
        },
{
    let mut out: Vec<Residuals> = Vec::new();
    let mut i: usize = 0;
    while i < output.len()
        invariant
            i <= output.len(),
            out.len() == i,
            forall|k: int|
                0 <= k < i ==> truth_residuals(hits_of(output[k].0.truth_hits@), output[k].1)
                    == Some(
                    (
                        hits_of((#[trigger] out[k]).pred@),
                        hits_of(out[k].filt@),
                        hits_of(out[k].smth@),
                    ),
                ),
        decreases output.len() - i,
    {
        let entry = &output[i];
        assert(output@[i as int] == *entry);
        match truth_residuals_of(&entry.0, &entry.1) {
            Some(res) => {
                let ghost before = out@;
                out.push(res);
                assert(forall|k: int| 0 <= k < i ==> out[k] == before[k]);
            },
            None => {
                return None;
            },
        }
        i = i + 1;
    }
    Some(out)
}

} // verus!
