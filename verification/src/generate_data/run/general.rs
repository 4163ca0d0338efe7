//! Residuals regrouped by sensor, and pulls.
use vstd::prelude::*;
use crate::config::{Mat5, Vec2, Vec5};
use crate::filter::utils::{Data, SuperData};
use crate::generate_data::structs::{KFData, Residuals, StorageData};
use crate::rational::{q_div, q_sub};

verus! {

/// The residuals of a set of tracks, one row per sensor.
pub type NestVec = Vec<Vec<Vec2>>;

/// The pulls of a set of tracks, one row per sensor.
pub type NestStorage = Vec<Vec<StorageData>>;

/// Every track has a residual on each of the first `num_sensors` sensors, in
/// all three passes.
pub open spec fn covers(vec_res: Seq<Residuals>, num_sensors: nat) -> bool {
    forall|t: int|
        0 <= t < vec_res.len() ==> {
            &&& num_sensors <= (#[trigger] vec_res[t]).pred.len()
            &&& num_sensors <= vec_res[t].filt.len()
            &&& num_sensors <= vec_res[t].smth.len()
        }
}

/// `nest` holds, for each of `num_sensors` sensors, one entry per track.
pub open spec fn sensor_major(nest: Seq<Vec<Vec2>>, num_sensors: nat, tracks: nat) -> bool {
    &&& nest.len() == num_sensors
    &&& forall|i: int| 0 <= i < num_sensors ==> (#[trigger] nest[i]).len() == tracks
}

/// The residuals of a set of tracks, regrouped by sensor.
///
/// What comes in holds, for every track, the residuals on its sensors; what
/// goes out holds, for every sensor, the residuals of the tracks on it, in
/// the order of the tracks. The three results are the predicted, the
/// filtered and the smoothed residuals. Every track must have a residual on
/// each of the `num_sensors` sensors.
pub fn residuals_by_sensor(vec_res: Vec<Residuals>, num_sensors: usize) -> (r: (
    NestVec,
    NestVec,
    NestVec,
))
    requires
        covers(vec_res@, num_sensors as nat),
    ensures
        sensor_major(r.0@, num_sensors as nat, vec_res.len() as nat),
        sensor_major(r.1@, num_sensors as nat, vec_res.len() as nat),
        sensor_major(r.2@, num_sensors as nat, vec_res.len() as nat),
        forall|i: int, t: int|
            0 <= i < num_sensors && 0 <= t < vec_res.len() ==> {
                &&& (#[trigger] r.0[i][t])@ == vec_res[t].pred[i]@
                &&& r.1[i][t]@ == vec_res[t].filt[i]@
                &&& r.2[i][t]@ == vec_res[t].smth[i]@
            },
{
    let mut sensor_predictions: NestVec = Vec::new();
    let mut sensor_filters: NestVec = Vec::new();
    let mut sensor_smoothes: NestVec = Vec::new();
    let mut i: usize = 0;
    while i < num_sensors
        invariant
            i <= num_sensors,
            covers(vec_res@, num_sensors as nat),
            sensor_major(sensor_predictions@, i as nat, vec_res.len() as nat),
            sensor_major(sensor_filters@, i as nat, vec_res.len() as nat),
            sensor_major(sensor_smoothes@, i as nat, vec_res.len() as nat),
            forall|k: int, t: int|
                0 <= k < i && 0 <= t < vec_res.len() ==> {
                    &&& (#[trigger] sensor_predictions[k][t])@ == vec_res[t].pred[k]@
                    &&& sensor_filters[k][t]@ == vec_res[t].filt[k]@
                    &&& sensor_smoothes[k][t]@ == vec_res[t].smth[k]@
                },
        decreases num_sensors - i,
    {
        let mut inn_pred: Vec<Vec2> = Vec::new();
        let mut inn_filt: Vec<Vec2> = Vec::new();
        let mut inn_smth: Vec<Vec2> = Vec::new();
        let mut t: usize = 0;
        while t < vec_res.len()
            invariant
                t <= vec_res.len(),
                i < num_sensors,
                covers(vec_res@, num_sensors as nat),
                inn_pred.len() == t,
                inn_filt.len() == t,
                inn_smth.len() == t,
                forall|u: int|
                    0 <= u < t ==> {
                        &&& (#[trigger] inn_pred[u])@ == vec_res[u].pred[i as int]@
                        &&& inn_filt[u]@ == vec_res[u].filt[i as int]@
                        &&& inn_smth[u]@ == vec_res[u].smth[i as int]@
                    },
            decreases vec_res.len() - t,
        {
            let x = &vec_res[t];
            assert(vec_res@[t as int] == *x);
            inn_pred.push(x.pred[i].duplicate());
            inn_filt.push(x.filt[i].duplicate());
            inn_smth.push(x.smth[i].duplicate());
            t = t + 1;
        }
        sensor_predictions.push(inn_pred);
        sensor_filters.push(inn_filt);
        sensor_smoothes.push(inn_smth);
        i = i + 1;
    }
    (sensor_predictions, sensor_filters, sensor_smoothes)
}

/// Adds the residuals of one pass to a table, one row for each.
pub fn residual_to_vec(storage: &mut Vec<StorageData>, res: &Vec<Vec2>)
    ensures
        final(storage).len() == old(storage).len() + res.len(),
        forall|i: int| 0 <= i < old(storage).len() ==> final(storage)[i] == old(storage)[i],
        forall|i: int|
            0 <= i < res.len() ==> {
                &&& (#[trigger] final(storage)[old(storage).len() + i]).x@ == res[i]@[0][0]
                &&& final(storage)[old(storage).len() + i].y@ == res[i]@[1][0]
            },
{
    let ghost start = storage@;
    let mut i: usize = 0;
    while i < res.len()
        invariant
            i <= res.len(),
            start == old(storage)@,
            storage.len() == start.len() + i,
            forall|k: int| 0 <= k < start.len() ==> storage[k] == start[k],
            forall|k: int|
                0 <= k < i ==> {
                    &&& (#[trigger] storage[start.len() + k]).x@ == res[k]@[0][0]
                    &&& storage[start.len() + k].y@ == res[k]@[1][0]
                },
        decreases res.len() - i,
    {
        let vec_res = &res[i];
        vec_res.shape();
        let row = StorageData::new(vec_res.get(0, 0), vec_res.get(1, 0));
        let ghost before = storage@;
        storage.push(row);
        assert(forall|k: int| 0 <= k < before.len() ==> storage[k] == before[k]);
        i = i + 1;
    }
}

/// The pull of a state against a hit: in each of the two coordinates, the
/// hit less the state, divided by the entry of the covariance for that
/// coordinate. `None` when a difference or a quotient cannot be stored, or a
/// divisor is zero.
pub open spec fn q_pull(hit: Seq<Seq<real>>, state: Seq<Seq<real>>, cov: Seq<Seq<real>>) -> Option<
    (real, real),
> {
    match (q_sub(hit[0][0], state[0][0]), q_sub(hit[1][0], state[1][0])) {
        (Some(dx), Some(dy)) => match (q_div(dx, cov[0][0]), q_div(dy, cov[1][1])) {
            (Some(px), Some(py)) => Some((px, py)),
            _ => None,
        },
        _ => None,
    }
}

/// The pulls of the first `n` states of a pass against the hits.
pub open spec fn pulls_defined(hits: Seq<Vec2>, pass: Data, n: nat) -> bool {
    forall|i: int|
        0 <= i < n ==> (#[trigger] q_pull(hits[i]@, pass.state_vec[i]@, pass.cov_mat[i]@)) is Some
}

/// The pull of a state against a hit.
///
/// `None` exactly when it cannot be computed in stored numbers.
pub fn pull(hit: &Vec2, state: &Vec5, cov: &Mat5) -> (r: Option<StorageData>)
    ensures
        match r {
            Some(s) => q_pull(hit@, state@, cov@) == Some((s.x@, s.y@)),
            None => q_pull(hit@, state@, cov@) is None,
        },
{
    let dx = hit.get(0, 0).sub(&state.get(0, 0));
    let dy = hit.get(1, 0).sub(&state.get(1, 0));
    let (dx, dy) = match (dx, dy) {
        (Some(dx), Some(dy)) => (dx, dy),
        _ => {
            return None;
        },
    };
    let px = dx.div(&cov.get(0, 0));
    let py = dy.div(&cov.get(1, 1));
    match (px, py) {
        (Some(px), Some(py)) => Some(StorageData::new(px, py)),
        _ => None,
    }
}

/// The pulls of the first `n` states of a pass against the hits of a track.
///
/// `None` exactly when one of them cannot be computed in stored numbers.
pub fn pulls_of_pass(hits: &Vec<Vec2>, pass: &Data, n: usize) -> (r: Option<Vec<StorageData>>)
    requires
        n <= hits.len(),
        n <= pass.state_vec.len(),
        n <= pass.cov_mat.len(),
    ensures
        match r {
            Some(row) => row.len() == n && pulls_defined(hits@, *pass, n as nat) && forall|i: int|
                0 <= i < n ==> q_pull(hits[i]@, pass.state_vec[i]@, pass.cov_mat[i]@) == Some(
                    ((#[trigger] row[i]).x@, row[i].y@),
                ),
            None => !pulls_defined(hits@, *pass, n as nat),
        },
{
    let mut row: Vec<StorageData> = Vec::new();
    let mut i: usize = 0;
    while i < n
        invariant
            i <= n,
            n <= hits.len(),
            n <= pass.state_vec.len(),
            n <= pass.cov_mat.len(),
            row.len() == i,
            forall|k: int|
                0 <= k < i ==> q_pull(hits[k]@, pass.state_vec[k]@, pass.cov_mat[k]@) == Some(
                    ((#[trigger] row[k]).x@, row[k].y@),
                ),
            forall|k: int|
                0 <= k < i ==> (#[trigger] q_pull(
                    hits[k]@,
                    pass.state_vec[k]@,
                    pass.cov_mat[k]@,
                )) is Some,
        decreases n - i,
    {
        match pull(&hits[i], &pass.state_vec[i], &pass.cov_mat[i]) {
            Some(p) => {
                let ghost before = row@;
                row.push(p);
                assert(forall|k: int| 0 <= k < i ==> row[k] == before[k]);
            },
            None => {
                return None;
            },
        }
        i = i + 1;
    }
    Some(row)
}

/// What a table by sensor holds for sensor `i` once the rows of the first
/// `t` tracks have been added: the entry for that sensor of every track that
/// reaches it, in the order of the tracks.
pub open spec fn gathered(rows: Seq<Seq<StorageData>>, i: int, t: nat) -> Seq<StorageData>
    decreases t,
{
    if t == 0 {
        Seq::empty()
    } else if i < rows[t - 1].len() {
        gathered(rows, i, (t - 1) as nat).push(rows[t - 1][i])
    } else {
        gathered(rows, i, (t - 1) as nat)
    }
}

/// Adds the row of one track to a table by sensor.
fn spread(columns: &mut NestStorage, row: &Vec<StorageData>)
    requires
        row.len() <= old(columns).len(),
    ensures
        final(columns).len() == old(columns).len(),
        forall|i: int|
            0 <= i < row.len() ==> (#[trigger] final(columns)[i])@ == old(columns)[i]@.push(row[i]),
        forall|i: int|
            row.len() <= i < old(columns).len() ==> (#[trigger] final(columns)[i])@ == old(
                columns,
            )[i]@,
{
    let ghost start = columns@;
    let mut i: usize = 0;
    while i < row.len()
        invariant
            i <= row.len(),
            row.len() <= columns.len(),
            start == old(columns)@,
            columns.len() == start.len(),
            forall|k: int| 0 <= k < i ==> (#[trigger] columns[k])@ == start[k]@.push(row[k]),
            forall|k: int| i <= k < columns.len() ==> (#[trigger] columns[k])@ == start[k]@,
        decreases row.len() - i,
    {
        let mut column: Vec<StorageData> = Vec::new();
        let mut j: usize = 0;
        while j < columns[i].len()
            invariant
                i < columns.len(),
                j <= columns[i as int].len(),
                column.len() == j,
                forall|k: int| 0 <= k < j ==> column[k] == columns[i as int][k],
            decreases columns[i as int].len() - j,
        {
            column.push(columns[i][j]);
            j = j + 1;
        }
        column.push(row[i]);
        assert(column@ =~= start[i as int]@.push(row[i as int]));
        columns.set(i, column);
        i = i + 1;
    }
}

/// One of the three passes of a fit.
pub enum Pass {
    Predicted,
    Filtered,
    Smoothed,
}

/// The bundle of one pass of a fit.
pub open spec fn pass_of(fit: SuperData, pass: Pass) -> Data {
    match pass {
        Pass::Predicted => fit.pred,
        Pass::Filtered => fit.filt,
        Pass::Smoothed => fit.smth,
    }
}

/// The rows of pulls of a set of fits: for every track the pulls of one pass
/// on its sensors.
pub open spec fn rows_match<T>(
    rows: Seq<Seq<StorageData>>,
    data: Seq<(KFData<T>, SuperData)>,
    pass: Pass,
) -> bool {
    &&& rows.len() == data.len()
    &&& forall|t: int|
        0 <= t < data.len() ==> (#[trigger] rows[t]).len() == data[t].1.pred.state_vec.len()
    &&& forall|t: int, i: int|
        0 <= t < data.len() && 0 <= i < rows[t].len() ==> q_pull(
            data[t].0.truth_hits[i]@,
            pass_of(data[t].1, pass).state_vec[i]@,
            pass_of(data[t].1, pass).cov_mat[i]@,
        ) == Some(((#[trigger] rows[t][i]).x@, rows[t][i].y@))
}

/// For every fit, each pass holds an estimate for every predicted state,
/// there is a true hit for each, and no track has more states than there are
/// sensors.
pub open spec fn pullable<T>(data: Seq<(KFData<T>, SuperData)>, sensors: nat) -> bool {
    forall|t: int|
        0 <= t < data.len() ==> {
            let n = (#[trigger] data[t]).1.pred.state_vec.len();
            &&& n <= sensors
            &&& n <= data[t].0.truth_hits.len()
            &&& n <= data[t].1.pred.cov_mat.len()
            &&& n <= data[t].1.filt.state_vec.len()
            &&& n <= data[t].1.filt.cov_mat.len()
            &&& n <= data[t].1.smth.state_vec.len()
            &&& n <= data[t].1.smth.cov_mat.len()
        }
}

/// Every pull of every fit can be computed in stored numbers.
pub open spec fn all_pulls_defined<T>(data: Seq<(KFData<T>, SuperData)>) -> bool {
    forall|t: int|
        0 <= t < data.len() ==> {
            let n = (#[trigger] data[t]).1.pred.state_vec.len() as nat;
            &&& pulls_defined(data[t].0.truth_hits@, data[t].1.pred, n)
            &&& pulls_defined(data[t].0.truth_hits@, data[t].1.filt, n)
            &&& pulls_defined(data[t].0.truth_hits@, data[t].1.smth, n)
        }
}

/// The tables of a set of rows: for each of `sensors` sensors what has been
/// gathered from all the rows.
pub open spec fn tabled(table: Seq<Vec<StorageData>>, rows: Seq<Seq<StorageData>>, sensors: nat) -> bool {
    &&& table.len() == sensors
    &&& forall|i: int| 0 <= i < sensors ==> (#[trigger] table[i])@ == gathered(rows, i, rows.len())
}

/// `table` holds the pulls of one pass of a set of fits, by sensor: for every
/// sensor, in the order of the tracks, the pull of every track that reaches
/// the sensor.
pub open spec fn table_of<T>(
    table: Seq<Vec<StorageData>>,
    data: Seq<(KFData<T>, SuperData)>,
    pass: Pass,
    sensors: nat,
) -> bool {
    exists|rows: Seq<Seq<StorageData>>|
        rows_match(rows, data, pass) && #[trigger] tabled(table, rows, sensors)
}

/// The pulls of a set of fits, by sensor.
///
/// For every sensor the three tables hold, in the order of the tracks, the
/// pull of every track that reaches the sensor: the true hit less the
/// predicted, the filtered or the smoothed coordinates, each divided by the
/// entry of the covariance for that coordinate.
///
/// `None` exactly when a pull cannot be computed in stored numbers.
pub fn pull_distribution_general<T>(
    kf_packaged_data: &Vec<(KFData<T>, SuperData)>,
    sensors: usize,
) -> (r: Option<(NestStorage, NestStorage, NestStorage)>)
    requires
        pullable(kf_packaged_data@, sensors as nat),
    ensures
        match r {
            Some((pred, filt, smth)) => {
                &&& all_pulls_defined(kf_packaged_data@)
                &&& table_of(pred@, kf_packaged_data@, Pass::Predicted, sensors as nat)
                &&& table_of(filt@, kf_packaged_data@, Pass::Filtered, sensors as nat)
                &&& table_of(smth@, kf_packaged_data@, Pass::Smoothed, sensors as nat)
            },
            None => !all_pulls_defined(kf_packaged_data@),
        },
{
    let mut sensor_predictions: NestStorage = Vec::new();
    let mut sensor_filters: NestStorage = Vec::new();
    let mut sensor_smoothes: NestStorage = Vec::new();
    let mut i: usize = 0;
    while i < sensors
        invariant
            i <= sensors,
            sensor_predictions.len() == i,
            sensor_filters.len() == i,
            sensor_smoothes.len() == i,
            forall|k: int| 0 <= k < i ==> (#[trigger] sensor_predictions[k])@ == Seq::<StorageData>::empty(),
            forall|k: int| 0 <= k < i ==> (#[trigger] sensor_filters[k])@ == Seq::<StorageData>::empty(),
            forall|k: int| 0 <= k < i ==> (#[trigger] sensor_smoothes[k])@ == Seq::<StorageData>::empty(),
        decreases sensors - i,
    {
        sensor_predictions.push(Vec::new());
        sensor_filters.push(Vec::new());
        sensor_smoothes.push(Vec::new());
        i = i + 1;
    }
    let ghost mut rp: Seq<Seq<StorageData>> = Seq::empty();
    let ghost mut rf: Seq<Seq<StorageData>> = Seq::empty();
    let ghost mut rs: Seq<Seq<StorageData>> = Seq::empty();
    let ghost data = kf_packaged_data@;
    let mut t: usize = 0;
    while t < kf_packaged_data.len()
        invariant
            t <= kf_packaged_data.len(),
            data == kf_packaged_data@,
            pullable(data, sensors as nat),
            rows_match(rp, data.take(t as int), Pass::Predicted),
            rows_match(rf, data.take(t as int), Pass::Filtered),
            rows_match(rs, data.take(t as int), Pass::Smoothed),
            all_pulls_defined(data.take(t as int)),
            tabled(sensor_predictions@, rp, sensors as nat),
            tabled(sensor_filters@, rf, sensors as nat),
            tabled(sensor_smoothes@, rs, sensors as nat),
        decreases kf_packaged_data.len() - t,
    {
        let entry = &kf_packaged_data[t];
        assert(data[t as int] == *entry);
        let n = entry.1.pred.state_vec.len();
        let hits = &entry.0.truth_hits;
        let p = pulls_of_pass(hits, &entry.1.pred, n);
        let f = pulls_of_pass(hits, &entry.1.filt, n);
        let s = pulls_of_pass(hits, &entry.1.smth, n);
        let (p, f, s) = match (p, f, s) {
            (Some(p), Some(f), Some(s)) => (p, f, s),
            _ => {
                return None;
            },
        };
        spread(&mut sensor_predictions, &p);
        spread(&mut sensor_filters, &f);
        spread(&mut sensor_smoothes, &s);
        proof {
            let before = data.take(t as int);
            let after = data.take(t as int + 1);
            assert(after =~= before.push(data[t as int]));
            lemma_gathered_push(rp, p@, sensors as nat);
            lemma_gathered_push(rf, f@, sensors as nat);
            lemma_gathered_push(rs, s@, sensors as nat);
            rp = rp.push(p@);
            rf = rf.push(f@);
            rs = rs.push(s@);
        }
        t = t + 1;
    }
    proof {
        assert(data.take(t as int) =~= data);
        assert(rows_match(rp, data, Pass::Predicted) && tabled(
            sensor_predictions@,
            rp,
            sensors as nat,
        ));
        assert(rows_match(rf, data, Pass::Filtered) && tabled(sensor_filters@, rf, sensors as nat));
        assert(rows_match(rs, data, Pass::Smoothed) && tabled(sensor_smoothes@, rs, sensors as nat));
    }
    Some((sensor_predictions, sensor_filters, sensor_smoothes))
}

/// What has been gathered from the first `t` rows does not depend on the
/// rows after them.
proof fn lemma_gathered_prefix(rows: Seq<Seq<StorageData>>, more: Seq<Seq<StorageData>>, i: int, t: nat)
    requires
        t <= rows.len(),
        rows.len() <= more.len(),
        forall|k: int| 0 <= k < rows.len() ==> rows[k] == more[k],
    ensures
        gathered(rows, i, t) == gathered(more, i, t),
    decreases t,
{
    if t > 0 {
        lemma_gathered_prefix(rows, more, i, (t - 1) as nat);
    }
}

/// What a table holds after one more row: for the sensors that the row
/// reaches its entry has been added, and the other sensors are as before.
proof fn lemma_gathered_push(rows: Seq<Seq<StorageData>>, row: Seq<StorageData>, sensors: nat)
    ensures
        forall|i: int|
            0 <= i < row.len() ==> #[trigger] gathered(rows.push(row), i, rows.len() + 1)
                == gathered(rows, i, rows.len()).push(row[i]),
        forall|i: int|
            row.len() <= i ==> #[trigger] gathered(rows.push(row), i, rows.len() + 1) == gathered(
                rows,
                i,
                rows.len(),
            ),
{
    let more = rows.push(row);
    assert forall|i: int| 0 <= i implies gathered(rows, i, rows.len()) == gathered(
        more,
        i,
        rows.len(),
    ) by {
        lemma_gathered_prefix(rows, more, i, rows.len());
    }
    assert(more[rows.len() as int] == row);
}

} // verus!
