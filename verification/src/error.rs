//! What a solver reports when it cannot deliver a result.
use vstd::prelude::*;

verus! {

/// The reasons for which a solver gives up. `W` is the double-precision number type.
#[derive(Clone, Debug)]
pub enum SolverError<W> {
    /// The operator, the right-hand side and the unknown do not fit together.
    DimensionMismatch {
        /// Rows of the operator.
        op_rows: usize,
        /// Columns of the operator.
        op_cols: usize,
        /// Length of the right-hand side.
        rhs_len: usize,
    },
    /// The data does not allow the solver to be set up.
    PrecondSetupFailed {
        /// What is wrong with the data.
        reason: String,
    },
    /// A decomposition that the solver needs does not exist.
    NumericalBreakdown {
        /// Which one.
        detail: String,
    },
    /// The iteration limit was reached.
    ConvergenceFailed {
        /// The limit.
        max_iter: usize,
        /// The residual that was left.
        residual: W,
    },
}

/// The error is a breakdown with the given explanation.
pub open spec fn is_breakdown<W>(e: SolverError<W>, detail: Seq<char>) -> bool {
    e matches SolverError::NumericalBreakdown { detail: d } && d@ == detail
}

/// The error is a failed setup with the given explanation.
pub open spec fn is_setup_failure<W>(e: SolverError<W>, reason: Seq<char>) -> bool {
    e matches SolverError::PrecondSetupFailed { reason: r } && r@ == reason
}

/// A breakdown with the given explanation.
pub fn breakdown<W>(detail: &str) -> (e: SolverError<W>)
    ensures
        is_breakdown(e, detail@),
{
    SolverError::NumericalBreakdown { detail: detail.to_string() }
}

} // verus!
