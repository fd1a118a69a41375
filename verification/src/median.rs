//! The median problem as it is put together piece by piece: a mesh, and the
//! input chains with the signs of their weights.

use crate::chain::{Chain, InputError};
use crate::mesh::Mesh;
use crate::program::{assemble, assembled, Program, WeightSign};
use vstd::prelude::*;

verus! {

/// A median problem in the making.
pub struct MedianShape<'a> {
    pub mesh: &'a Mesh,
    pub chains: Vec<Chain<'a>>,
    pub alpha: Vec<WeightSign>,
}

impl<'a> MedianShape<'a> {
    /// The problem on `mesh` without input chains.
    pub fn new(mesh: &'a Mesh) -> (m: MedianShape<'a>)
        ensures
            m.mesh == mesh,
            m.chains@.len() == 0,
            m.alpha@.len() == 0,
    {
        MedianShape { mesh, chains: Vec::new(), alpha: Vec::new() }
    }

    /// The problem with one more input chain, whose weight has the sign
    /// `weight`.
    pub fn add_chain(self, chain: Chain<'a>, weight: WeightSign) -> (m: MedianShape<'a>)
        ensures
            m.mesh == self.mesh,
            m.chains@ == self.chains@.push(chain),
            m.alpha@ == self.alpha@.push(weight),
    {
        let mut m = self;
        m.chains.push(chain);
        m.alpha.push(weight);
        m
    }

    /// The median program of the problem: what `assemble` answers for its
    /// mesh, its chains and the signs of their weights.
    pub fn program(&self) -> (r: Result<Program, InputError>)
        ensures
            assembled(self.mesh, self.chains@, self.alpha@, r),
    {
        assemble(self.mesh, &self.chains, &self.alpha)
    }
}

} // verus!
