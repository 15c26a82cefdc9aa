//! The contract that every algorithm of the library fulfils.

use vstd::prelude::*;

verus! {

/// The asymptotic cost class of an algorithm, for callers that choose
/// between algorithms by cost.
#[derive(Clone, Copy, Debug, PartialEq, Eq, Structural)]
pub enum Complexity {
    /// Bounded by a polynomial in the size of the input.
    Polynomial,
    /// Faster than every exponential, slower than every polynomial.
    SubExponential,
    /// Exponential in the size of the input.
    Exponential,
}

/// The recoverable ways in which an algorithm can end without a result.
#[derive(Clone, Copy, Debug, PartialEq, Eq, Structural)]
pub enum AlgorithmError {
    /// The problem is not defined for the given input.
    InvalidInput,
    /// The search ended within its budget without finding a relation.
    NoRelationFound,
}

/// A problem instance that is consumed by one run.
///
/// `compute` yields an ordered sequence of results, of length one for an
/// algorithm with a single answer, or an error that is distinct from an empty
/// sequence. `admits` says which outcomes are correct for an instance;
/// `complexity` belongs to the algorithm, not to an input.
pub trait Algorithm: Sized {
    type Output;

    /// Whether `outcome` is a correct outcome of running this instance.
    spec fn admits(self, outcome: Result<Seq<Self::Output>, AlgorithmError>) -> bool;

    /// Runs the algorithm.
    fn compute(self) -> (r: Result<Vec<Self::Output>, AlgorithmError>)
        ensures
            self.admits(
                match r {
                    Ok(v) => Ok(v@),
                    Err(e) => Err(e),
                },
            ),
    ;

    /// The cost class of the algorithm.
    fn complexity() -> Complexity;
}

} // verus!
