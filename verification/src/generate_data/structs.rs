//! The records that the statistics of a set of fits are kept in.
use vstd::prelude::*;
use crate::config::{Mat5, Vec2, Vec5};
use crate::rational::Rational;

verus! {

/// What is known of one simulated track: the sensors it crossed, where it
/// truly hit them, the hits as they were smeared, and what the fit was
/// started from.
#[derive(Debug)]
pub struct KFData<T> {
    pub sensors: Vec<T>,
    pub start: Vec5,
    pub cov: Mat5,
    pub smear_initial_vector: Vec5,
    pub truth_hits: Vec<Vec2>,
    pub smear_hits: Vec<Vec2>,
}

/// The residuals of one track on every sensor, for each of the three passes.
#[derive(Debug)]
pub struct Residuals {
    pub smth: Vec<Vec2>,
    pub filt: Vec<Vec2>,
    pub pred: Vec<Vec2>,
}

impl Residuals {
    /// The residuals in three rows, from triples of the smoothed, the
    /// filtered and the predicted residual of a sensor.
    pub fn new_grouped(grouped: Vec<(Vec2, Vec2, Vec2)>) -> (r: Residuals)
        ensures
            r.smth.len() == grouped.len(),
            r.filt.len() == grouped.len(),
            r.pred.len() == grouped.len(),
            forall|i: int|
                0 <= i < grouped.len() ==> {
                    &&& (#[trigger] r.smth[i])@ == grouped[i].0@
                    &&& r.filt[i]@ == grouped[i].1@
                    &&& r.pred[i]@ == grouped[i].2@
                },
    {
        let mut smth: Vec<Vec2> = Vec::new();
        let mut filt: Vec<Vec2> = Vec::new();
        let mut pred: Vec<Vec2> = Vec::new();
        let mut i: usize = 0;
        while i < grouped.len()
            invariant
                i <= grouped.len(),
                smth.len() == i,
                filt.len() == i,
                pred.len() == i,
                forall|k: int|
                    0 <= k < i ==> {
                        &&& (#[trigger] smth[k])@ == grouped[k].0@
                        &&& filt[k]@ == grouped[k].1@
                        &&& pred[k]@ == grouped[k].2@
                    },
            decreases grouped.len() - i,
        {
            smth.push(grouped[i].0.duplicate());
            filt.push(grouped[i].1.duplicate());
            pred.push(grouped[i].2.duplicate());
            i = i + 1;
        }
        Residuals { smth, filt, pred }
    }
}

/// Two numbers of one row of a table.
#[derive(Clone, Copy, Debug, PartialEq, Eq, Structural)]
pub struct StorageData {
    pub x: Rational,
    pub y: Rational,
}

impl StorageData {
    /// The row with the two numbers.
    pub fn new(x: Rational, y: Rational) -> (s: StorageData)
        ensures
            s.x == x,
            s.y == y,
    {
        StorageData { x, y }
    }

    /// The row with the two entries of a hit.
    pub fn from_vec2(v: Vec2) -> (s: StorageData)
        ensures
            s.x@ == v@[0][0],
            s.y@ == v@[1][0],
    {
        StorageData { x: v.get(0, 0), y: v.get(1, 0) }
    }
}

} // verus!
