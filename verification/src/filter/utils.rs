//! What a fit returns: for every sensor a state vector and its covariance,
//! as predicted, as filtered and as smoothed.
use vstd::prelude::*;
use crate::config::{Mat5, Vec3, Vec5};

verus! {

/// A state vector with its covariance matrix, as real numbers.
pub type Estimate = (Seq<Seq<real>>, Seq<Seq<real>>);

/// The state vectors and covariance matrices of one pass over the sensors,
/// in the order of the sensors.
#[derive(Debug)]
pub struct Data {
    pub state_vec: Vec<Vec5>,
    pub cov_mat: Vec<Mat5>,
}

impl Data {
    /// There is one covariance matrix for every state vector.
    pub open spec fn wf(&self) -> bool {
        self.state_vec.len() == self.cov_mat.len()
    }

    /// The estimates of the pass, sensor by sensor.
    pub open spec fn view(&self) -> Seq<Estimate> {
        Seq::new(self.state_vec.len() as nat, |i: int| (self.state_vec[i]@, self.cov_mat[i]@))
    }

    /// A pass over no sensor.
    pub fn new() -> (d: Data)
        ensures
            d.wf(),
            d@ == Seq::<Estimate>::empty(),
    {
        let d = Data { state_vec: Vec::new(), cov_mat: Vec::new() };
        assert(d@ =~= Seq::<Estimate>::empty());
        d
    }

    /// The number of sensors that the pass has seen.
    pub fn len(&self) -> (n: usize)
        ensures
            n == self@.len(),
    {
        self.state_vec.len()
    }

    /// Adds the estimate of the next sensor.
    pub fn push(&mut self, state: Vec5, covariance: Mat5)
        requires
            old(self).wf(),
        ensures
            final(self).wf(),
            final(self)@ == old(self)@.push((state@, covariance@)),
    {
        self.state_vec.push(state);
        self.cov_mat.push(covariance);
        assert(self@ =~= old(self)@.push((state@, covariance@)));
    }
}

/// The three passes of one fit.
#[derive(Debug)]
pub struct SuperData {
    /// What was expected on each sensor before its hit was used.
    pub pred: Data,
    /// What was known on each sensor once its hit had been used.
    pub filt: Data,
    /// What is known on each sensor with every hit used.
    pub smth: Data,
}

/// How a track gets from one sensor to the next: the direction of its
/// straight line in the global frame, and the Jacobian of the state on the
/// next sensor with respect to the state on this one.
#[derive(Debug)]
pub struct Transport {
    pub direction: Vec3,
    pub jacobian: Mat5,
}

} // verus!
