//! Filtrations: ordered sequences of simplicial complexes, typically one
//! per distance threshold.

use vstd::prelude::*;

use crate::simplicial_complex::SimplicialComplex;

verus! {

/// An ordered sequence of simplicial complexes.
pub struct Filtration {
    pub data: Vec<SimplicialComplex>,
}

impl Filtration {
    /// Wrap an ordered sequence of complexes.
    pub fn new(data: Vec<SimplicialComplex>) -> (r: Filtration)
        ensures
            r.data@ == data@,
    {
        Filtration { data }
    }
}

} // verus!
