//! Algebraic invariants of finite simplicial complexes: boundary operators,
//! elementary-operation diagonalization, Betti numbers, and Vietoris-Rips
//! complexes built from a distance-threshold adjacency relation.

pub mod boundary;
pub mod filtration;
pub mod frac;
pub mod linear_algebra;
pub mod simplex;
pub mod matrix;
pub mod simplicial_complex;
pub mod vietoris_rips;

use vstd::prelude::*;

verus! {

/// The error conditions of the library.
#[derive(Clone, Copy, Debug, PartialEq, Eq, Structural)]
pub enum TdaError {
    /// A hollow complex was requested at dimension zero: a point has no
    /// proper boundary.
    HollowOfDimZero,
    /// An exact rational computation left the machine integer range.
    ArithmeticOverflow,
    /// Ranks of consecutive boundary maps exceeded the chain dimension, so
    /// the Betti formula has no non-negative value.
    RankExceedsColumns,
}

} // verus!
