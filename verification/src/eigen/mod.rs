//! Eigenvalue solvers.
pub mod ame;
pub mod block;
pub mod dense;
pub mod free_pencil;
pub mod invariants;
pub mod lobpcg;
pub mod meaning;
pub mod orthonormal;
pub mod rayleigh_ritz;

use crate::scalar::Scalar;
use crate::vector::DenseVec;
use vstd::prelude::*;

verus! {

/// Which modes are wanted, and in which order they are returned.
#[derive(Clone, Copy, Debug, PartialEq, Eq, Structural)]
pub enum EigenWhich {
    /// The smallest eigenvalues, smallest first.
    SmallestAlgebraic,
    /// The largest eigenvalues (the top modes), largest first.
    LargestAlgebraic,
    /// The smallest eigenvalues, smallest first.
    SmallestMagnitude,
    /// The smallest eigenvalues, largest absolute value first.
    LargestMagnitude,
    /// The smallest eigenvalues: the smaller half ascending, then the larger half descending.
    BothEnds,
}

/// What to compute, and how hard to try.
#[derive(Clone, Debug)]
pub struct EigenParams<T> {
    /// The number of eigenvalues to compute.
    pub n_eigenvalues: usize,
    /// The order of the result.
    pub which: EigenWhich,
    /// The convergence tolerance.
    pub tol: T,
    /// The iteration limit.
    pub max_iter: usize,
    /// Whether progress is to be reported.
    pub verbose: bool,
}

impl<T: Scalar> EigenParams<T> {
    /// Asks for `n_eigenvalues` in the given order, with a tolerance of 1e-10 and at most 1000
    /// iterations.
    pub fn new(n_eigenvalues: usize, which: EigenWhich) -> (p: Self)
        ensures
            p.n_eigenvalues == n_eigenvalues,
            p.which == which,
            p.tol == T::scaled(1, -10),
            p.max_iter == 1000,
            !p.verbose,
    {
        EigenParams {
            n_eigenvalues,
            which,
            tol: T::decimal(1, -10),
            max_iter: 1000,
            verbose: false,
        }
    }
}

/// Eigenpairs of an operator or a pencil.
#[derive(Clone, Debug)]
pub struct EigenResult<T: Scalar> {
    /// The eigenvalues.
    pub eigenvalues: Vec<T>,
    /// The eigenvectors, in the order of the eigenvalues.
    pub eigenvectors: Vec<DenseVec<T>>,
    /// How many pairs converged.
    pub converged: usize,
    /// The iterations that were needed.
    pub iterations: usize,
    /// The norms of the residuals, in the order of the eigenvalues.
    pub residuals: Vec<T>,
}

} // verus!
