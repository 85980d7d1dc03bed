//! What callers supply: linear operators and preconditioners.
//!
//! Of an implementation only two things are asked: that it computes a function of the
//! vector it is given, and that it keeps the length of the vector it writes.
use crate::vector::DenseVec;
use vstd::prelude::*;

verus! {

/// A linear map between vectors with entries of type `E`.
pub trait LinearOperator<E> {
    /// The model of [`LinearOperator::nrows`].
    closed spec fn rows(&self) -> nat {
        arbitrary()
    }

    /// The model of [`LinearOperator::ncols`].
    closed spec fn cols(&self) -> nat {
        arbitrary()
    }

    /// The model of [`LinearOperator::apply`]: the image of `x`.
    closed spec fn image(&self, x: Seq<E>) -> Seq<E> {
        arbitrary()
    }

    /// The length of the vectors that the operator produces.
    fn nrows(&self) -> (r: usize)
        ensures
            r == self.rows(),
    ;

    /// The length of the vectors that the operator takes.
    fn ncols(&self) -> (r: usize)
        ensures
            r == self.cols(),
    ;

    /// Writes the image of `x` to `y`.
    fn apply(&self, x: &DenseVec<E>, y: &mut DenseVec<E>)
        requires
            x@.len() == self.cols(),
            old(y)@.len() == self.rows(),
        ensures
            final(y)@ == self.image(x@),
            final(y)@.len() == old(y)@.len(),
    ;
}

/// An approximate inverse, or a projection, on vectors with entries of type `E`.
pub trait Preconditioner<E> {
    /// The model of [`Preconditioner::apply_precond`].
    closed spec fn correction(&self, x: Seq<E>) -> Seq<E> {
        arbitrary()
    }

    /// Writes the preconditioned `x` to `y`.
    fn apply_precond(&self, x: &DenseVec<E>, y: &mut DenseVec<E>)
        requires
            x@.len() == old(y)@.len(),
        ensures
            final(y)@ == self.correction(x@),
            final(y)@.len() == old(y)@.len(),
    ;
}

} // verus!
