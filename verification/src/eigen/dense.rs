//! Small dense eigenproblems.
//!
//! The decompositions themselves are computed elsewhere, in double precision, on the
//! matrices that a solver hands out. Here stands what is done with their outcome.
use crate::error::{breakdown, is_breakdown, SolverError};
use crate::index::lemma_position;
use crate::order::{gather, sort_indices, sorting, sorts, totally_ordered};
use crate::scalar::{narrow_all, narrowed_all, Scalar};
use vstd::prelude::*;

verus! {

/// The outcome of a dense eigensolve of the pencil `A c = θ B c`: a Cholesky
/// factorisation `B = L Lᵀ`, its inverse, and the eigenpairs of `L⁻¹ A L⁻ᵀ`.
#[derive(Clone, Debug)]
pub enum PencilOutcome<W> {
    /// `B` has no Cholesky factorisation.
    NotPositiveDefinite,
    /// The Cholesky factor has no inverse.
    SingularFactor,
    /// The eigenvalues, in any order, and the matrix `L⁻ᵀ Y` that holds the
    /// back-transformed eigenvectors as its columns, stored row after row.
    Pairs {
        /// The eigenvalues.
        values: Vec<W>,
        /// The eigenvectors.
        vectors: Vec<W>,
    },
}

impl<T: crate::scalar::Real> PencilOutcome<T> {
    /// The outcome fits a pencil of size `n`, and its eigenvalues can be compared.
    pub open spec fn fits(self, n: nat) -> bool {
        self matches PencilOutcome::Pairs { values, vectors } ==> {
            &&& values@.len() == n
            &&& vectors@.len() == n * n
            &&& totally_ordered(values@)
        }
    }
}

/// The eigenvectors of a pencil of size `n`, one after the other, in the given order of
/// the columns of `vectors`.
pub open spec fn listed_vectors<T: Scalar>(
    vectors: Seq<T::Wide>,
    order: Seq<usize>,
    n: nat,
) -> Seq<T> {
    Seq::new(
        n * n,
        |p: int| T::narrowed(vectors[(p % n as int) * n + order[p / n as int]]),
    )
}

/// The eigenvalues of an outcome in ascending order.
pub open spec fn ascending_values<T: Scalar>(values: Seq<T::Wide>) -> Seq<T> {
    narrowed_all::<T>(gather(values, sorting(values, false)))
}

/// The eigenvectors of an outcome in the order of ascending eigenvalues.
pub open spec fn ascending_vectors<T: Scalar>(
    values: Seq<T::Wide>,
    vectors: Seq<T::Wide>,
) -> Seq<T> {
    listed_vectors::<T>(vectors, sorting(values, false), values.len())
}

/// The eigenvalues of the pencil of size `n` in ascending order and the eigenvectors that
/// belong to them: entry `j·n + i` is row `i` of eigenvector `j`. An error where `B` is not
/// positive definite or its factor is singular.
pub fn dense_symm_eig_gen<T: Scalar>(outcome: PencilOutcome<T::Wide>, n: usize) -> (r: Result<
    (Vec<T>, Vec<T>),
    SolverError<T::Wide>,
>)
    requires
        outcome.fits(n as nat),
    ensures
        match outcome {
            PencilOutcome::NotPositiveDefinite => r matches Err(e) && is_breakdown(
                e,
                "LOBPCG: GEVP B-matrix not positive definite (dsygv failure)"@,
            ),
            PencilOutcome::SingularFactor => r matches Err(e) && is_breakdown(
                e,
                "LOBPCG: GEVP Cholesky factor singular (dsygv failure)"@,
            ),
            PencilOutcome::Pairs { values, vectors } => {
                &&& r matches Ok(pairs)
                &&& pairs.0@ == ascending_values::<T>(values@)
                &&& pairs.1@ == ascending_vectors::<T>(values@, vectors@)
                &&& sorts(values@, false, sorting(values@, false))
            },
        },
{
    match outcome {
        PencilOutcome::NotPositiveDefinite => Err(
            breakdown("LOBPCG: GEVP B-matrix not positive definite (dsygv failure)"),
        ),
        PencilOutcome::SingularFactor => Err(
            breakdown("LOBPCG: GEVP Cholesky factor singular (dsygv failure)"),
        ),
        PencilOutcome::Pairs { values, vectors } => {
            let order = sort_indices(&values, false);
            let mut evals: Vec<T> = Vec::new();
            let mut evecs: Vec<T> = Vec::new();
            let ghost want = listed_vectors::<T>(vectors@, order@, n as nat);
            let mut col: usize = 0;
            while col < n
                invariant
                    col <= n,
                    values@.len() == n,
                    vectors.len() == n * n,
                    sorts(values@, false, order@),
                    want == listed_vectors::<T>(vectors@, order@, n as nat),
                    evals@ == narrowed_all::<T>(gather(values@, order@)).take(col as int),
                    evecs@.len() == col * n,
                    forall|p: int| 0 <= p < col * n ==> evecs@[p] == want[p],
                decreases n - col,
            {
                let i = order[col];
                evals.push(T::from_wide(values[i]));
                assert(col * n + n == (col + 1) * n) by (nonlinear_arith);
                assert((col + 1) * n <= n * n) by (nonlinear_arith)
                    requires
                        col + 1 <= n,
                ;
                let mut row: usize = 0;
                while row < n
                    invariant
                        row <= n,
                        col < n,
                        i == order@[col as int],
                        i < n,
                        vectors.len() == n * n,
                        col * n + n == (col + 1) * n,
                        (col + 1) * n <= n * n,
                        want == listed_vectors::<T>(vectors@, order@, n as nat),
                        evecs@.len() == col * n + row,
                        forall|p: int| 0 <= p < col * n + row ==> evecs@[p] == want[p],
                    decreases n - row,
                {
                    proof {
                        lemma_position(row as int, i as int, n as int, n as int);
                        lemma_position(col as int, row as int, n as int, n as int);
                    }
                    evecs.push(T::from_wide(vectors[row * n + i]));
                    row = row + 1;
                }
                col = col + 1;
                assert(evals@ =~= narrowed_all::<T>(gather(values@, order@)).take(col as int));
            }
            assert(evals@ =~= narrowed_all::<T>(gather(values@, order@)));
            assert(evecs@ =~= want);
            Ok((evals, evecs))
        },
    }
}

/// The inverse of the upper Cholesky factor of a symmetric matrix, converted from the
/// double-precision matrix in which it was computed; none where the matrix is not positive
/// definite.
pub fn chol_upper_inv<T: Scalar>(inverse: &Option<Vec<T::Wide>>) -> (r: Option<Vec<T>>)
    ensures
        match inverse {
            None => r is None,
            Some(u) => r matches Some(v) && v@ == narrowed_all::<T>(u@),
        },
{
    match inverse {
        None => None,
        Some(u) => Some(narrow_all::<T>(u)),
    }
}

} // verus!
