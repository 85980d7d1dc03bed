//! AME — auxiliary-space Maxwell eigensolver.
//!
//! Solves the curl-curl eigenvalue problem `A x = λ M x` for the smallest nonzero
//! eigenvalues. The essential (boundary) degrees of freedom of `A` and `M` are expected to be
//! eliminated already: their rows are reduced to the diagonal, which is tiny in `M`.
//!
//! 1. The essential degrees of freedom are found by their vanishing diagonal entry in `M`.
//!    Leaving them out gives the nonsingular blocks `A_ff` and `M_ff`, which
//!    [`AmeSolver::solve`] hands out.
//! 2. The caller factorises `M_ff = L Lᵀ`, forms the symmetric matrix `L⁻¹ A_ff L⁻ᵀ`, which
//!    has the same eigenvalues, and decomposes it.
//! 3. [`AmeSolver::finish`] drops the eigenvalues that belong to the gradient nullspace, those
//!    up to a relative threshold, keeps the smallest of the others, and extends the
//!    back-transformed eigenvectors `L⁻ᵀ y` by zero on the essential degrees of freedom.
//!
//! The fields `tol`, `max_iter`, `verbose`, `shift`, `extra` and `zero_dofs` of the
//! configuration are accepted and kept, but the solver does not use them.
use crate::eigen::dense::PencilOutcome;
use crate::error::{breakdown, is_breakdown, is_setup_failure, SolverError};
use crate::index::lemma_position;
use crate::order::{
    in_order, lemma_all_listed, lemma_sorting_exists, sort_indices, sorting, sorts, stands_before,
    totally_ordered,
};
use crate::scalar::{wide_or, widen, Field, Real, Scalar};
use crate::sparse::{diagonal, product, CsrMatrix};
use crate::vector::{dot, euclidean, filled, DenseVec};
use std::marker::PhantomData;
use vstd::prelude::*;

verus! {

/// Configuration for the AME eigensolver.
#[derive(Clone, Debug)]
pub struct AmeConfig<W> {
    /// Number of eigenvalue/vector pairs to compute.
    pub nev: usize,
    /// Maximum iterations (default 200).
    pub max_iter: usize,
    /// Convergence tolerance (default 1e-8).
    pub tol: W,
    /// Print convergence info when `true`.
    pub verbose: bool,
    /// Spectral shift (default -0.01).
    pub shift: W,
    /// Extra vectors.
    pub extra: usize,
    /// Eliminated (essential) degrees of freedom, for information: the solver finds them from
    /// the diagonal of `M`.
    pub zero_dofs: Vec<usize>,
}

impl<W: Real> Default for AmeConfig<W> {
    fn default() -> (r: Self)
        ensures
            r.nev == 5,
            r.max_iter == 200,
            r.tol == W::scaled(1, -8),
            !r.verbose,
            r.shift == W::scaled(-1, -2),
            r.extra == 0,
            r.zero_dofs@ == Seq::<usize>::empty(),
    {
        AmeConfig {
            nev: 5,
            max_iter: 200,
            tol: W::decimal(1, -8),
            verbose: false,
            shift: W::decimal(-1, -2),
            extra: 0,
            zero_dofs: Vec::new(),
        }
    }
}

/// Result returned by the AME solver.
#[derive(Clone, Debug)]
pub struct AmeResult<T: Scalar> {
    /// The eigenvalues, ascending.
    pub eigenvalues: Vec<T>,
    /// The eigenvectors, in the order of the eigenvalues.
    pub eigenvectors: Vec<DenseVec<T>>,
    /// Number of passes: always one.
    pub iterations: usize,
    /// Whether the requested number of eigenvalues was found.
    pub converged: bool,
    /// The norms of the residuals, in the order of the eigenvalues.
    pub residuals: Vec<T>,
}

/// The pencil that is left on the free degrees of freedom. The matrices are stored row after
/// row, in double precision.
#[derive(Clone, Debug)]
pub struct FreePencil<W> {
    /// The free degrees of freedom, ascending.
    pub free: Vec<usize>,
    /// `A_ff`.
    pub a: Vec<W>,
    /// `M_ff`.
    pub m: Vec<W>,
}

/// A degree of freedom is free where its diagonal entry in `M` exceeds 1e-100.
pub open spec fn is_free<T: Scalar>(entry: T) -> bool {
    T::Wide::scaled(1, -100).less(wide_or(entry, T::Wide::nought()))
}

/// The free degrees of freedom for a given diagonal of `M`, ascending.
pub open spec fn free_dofs<T: Scalar>(diag: Seq<T>) -> Seq<usize>
    decreases diag.len(),
{
    if diag.len() == 0 {
        Seq::empty()
    } else {
        let before = free_dofs(diag.drop_last());
        if is_free(diag.last()) {
            before.push((diag.len() - 1) as usize)
        } else {
            before
        }
    }
}

/// The block of a matrix on the given rows and columns, row after row, in double precision;
/// zero where no entry is stored.
pub open spec fn dense_block<T: Scalar>(mat: CsrMatrix<T>, free: Seq<usize>) -> Seq<T::Wide> {
    Seq::new(
        free.len() * free.len(),
        |p: int|
            match mat.stored(free[p / free.len() as int] as int, free[p % free.len() as int]) {
                Some(v) => wide_or(v, T::Wide::nought()),
                None => T::Wide::nought(),
            },
    )
}

/// The threshold below which an eigenvalue counts as one of the nullspace: relative to the largest
/// eigenvalue, but at least 1e-8.
pub open spec fn null_threshold<W: Real>(values: Seq<W>) -> W {
    let largest = values[sorting(values, false).last() as int];
    W::scaled(1, -8).times(largest.magnitude().larger(W::unit()))
}

/// Those of the listed eigenvalues that lie above the threshold.
pub open spec fn genuine<W: Real>(values: Seq<W>, order: Seq<usize>, threshold: W) -> Seq<usize>
    decreases order.len(),
{
    if order.len() == 0 {
        Seq::empty()
    } else {
        let before = genuine(values, order.drop_last(), threshold);
        if values[order.last() as int].at_most(threshold) {
            before
        } else {
            before.push(order.last())
        }
    }
}

/// The positions of the `k` smallest eigenvalues above the threshold, ascending by eigenvalue;
/// of all of them, where there are fewer.
pub open spec fn selected<W: Real>(values: Seq<W>, k: nat) -> Seq<usize> {
    let all = genuine(values, sorting(values, false), null_threshold(values));
    if all.len() <= k {
        all
    } else {
        all.take(k as int)
    }
}

/// Column `i` of the `n×n` matrix `vectors` as a vector of length `len`: its entries stand at
/// the free degrees of freedom, with zeros elsewhere.
pub open spec fn extended<T: Scalar>(
    vectors: Seq<T::Wide>,
    free: Seq<usize>,
    i: int,
    len: nat,
) -> Seq<T> {
    Seq::new(
        len,
        |g: int|
            if free.contains(g as usize) {
                T::narrowed(vectors[free.index_of(g as usize) * free.len() + i])
            } else {
                T::nought()
            },
    )
}

/// `A v − λ M v`.
pub open spec fn pencil_residual<T: Scalar>(
    a: CsrMatrix<T>,
    m: CsrMatrix<T>,
    lambda: T,
    v: Seq<T>,
) -> Seq<T> {
    Seq::new(v.len(), |i: int| product(a@, v)[i].minus(lambda.times(product(m@, v)[i])))
}

/// The result holds the eigenpairs at the positions `picks` of a decomposition.
pub open spec fn lists<T: Scalar>(
    r: AmeResult<T>,
    a: CsrMatrix<T>,
    m: CsrMatrix<T>,
    free: Seq<usize>,
    values: Seq<T::Wide>,
    vectors: Seq<T::Wide>,
    picks: Seq<usize>,
) -> bool {
    &&& r.eigenvalues@.len() == picks.len()
    &&& r.eigenvectors@.len() == picks.len()
    &&& r.residuals@.len() == picks.len()
    &&& forall|j: int|
        0 <= j < picks.len() ==> {
            &&& #[trigger] r.eigenvalues@[j] == T::narrowed(values[picks[j] as int])
            &&& r.eigenvectors@[j]@ == extended::<T>(vectors, free, picks[j] as int, a@.len())
            &&& r.residuals@[j] == euclidean(
                pencil_residual(a, m, r.eigenvalues@[j], r.eigenvectors@[j]@),
            )
        }
}

/// The result holds the `nev` smallest eigenvalues above the nullspace threshold, or as many as there
/// are, and says whether it holds as many as were asked for.
pub open spec fn completes<T: Scalar>(
    r: AmeResult<T>,
    nev: nat,
    a: CsrMatrix<T>,
    m: CsrMatrix<T>,
    free: Seq<usize>,
    values: Seq<T::Wide>,
    vectors: Seq<T::Wide>,
) -> bool {
    let picks = selected(values, nev);
    &&& lists(r, a, m, free, values, vectors, picks)
    &&& r.iterations == 1
    &&& r.converged == (picks.len() >= nev)
}

/// Auxiliary-space Maxwell eigensolver.
///
/// Solves `A x = λ M x` (singular curl-curl pencil) for the smallest nonzero eigenvalues.
pub struct AmeSolver<T: Scalar> {
    /// The configuration.
    pub cfg: AmeConfig<T::Wide>,
    /// The type of the matrix entries.
    pub element: PhantomData<T>,
}

impl<T: Scalar> AmeSolver<T> {
    /// A solver for `nev` eigenpairs, otherwise with the default configuration.
    pub fn new(nev: usize) -> (r: Self)
        ensures
            r.cfg.nev == nev,
            r.cfg.max_iter == 200,
            r.cfg.tol == T::Wide::scaled(1, -8),
            !r.cfg.verbose,
            r.cfg.shift == T::Wide::scaled(-1, -2),
            r.cfg.extra == 0,
            r.cfg.zero_dofs@ == Seq::<usize>::empty(),
    {
        let mut cfg: AmeConfig<T::Wide> = AmeConfig::default();
        cfg.nev = nev;
        AmeSolver { cfg, element: PhantomData }
    }

    /// Sets the convergence tolerance.
    pub fn tol(self, tol: T::Wide) -> (r: Self)
        ensures
            r == (AmeSolver::<T> { cfg: (AmeConfig { tol, ..self.cfg }), ..self }),
    {
        let mut out = self;
        out.cfg.tol = tol;
        out
    }

    /// Sets the iteration limit.
    pub fn max_iter(self, max_iter: usize) -> (r: Self)
        ensures
            r == (AmeSolver::<T> { cfg: (AmeConfig { max_iter, ..self.cfg }), ..self }),
    {
        let mut out = self;
        out.cfg.max_iter = max_iter;
        out
    }

    /// Sets whether progress is to be reported.
    pub fn verbose(self, verbose: bool) -> (r: Self)
        ensures
            r == (AmeSolver::<T> { cfg: (AmeConfig { verbose, ..self.cfg }), ..self }),
    {
        let mut out = self;
        out.cfg.verbose = verbose;
        out
    }

    /// Accepted and ignored.
    pub fn singularity_regularization(self, _val: T::Wide) -> (r: Self)
        ensures
            r == self,
    {
        self
    }

    /// Sets the number of extra vectors.
    pub fn extra(self, extra: usize) -> (r: Self)
        ensures
            r == (AmeSolver::<T> { cfg: (AmeConfig { extra, ..self.cfg }), ..self }),
    {
        let mut out = self;
        out.cfg.extra = extra;
        out
    }

    /// Notes the eliminated degrees of freedom.
    pub fn zero_dofs(self, dofs: Vec<usize>) -> (r: Self)
        ensures
            r == (AmeSolver::<T> { cfg: (AmeConfig { zero_dofs: dofs, ..self.cfg }), ..self }),
    {
        let mut out = self;
        out.cfg.zero_dofs = dofs;
        out
    }

    /// Starts the solution of `A x = λ M x`: the pencil on the free degrees of freedom, whose
    /// decomposition [`AmeSolver::finish`] takes; an error where there is none. The discrete
    /// gradient is not needed.
    pub fn solve(&self, a: &CsrMatrix<T>, m: &CsrMatrix<T>, _g: &CsrMatrix<T>) -> (r: Result<
        FreePencil<T::Wide>,
        SolverError<T::Wide>,
    >)
        requires
            a.width() == a@.len(),
            m@.len() == a@.len(),
            free_dofs(diagonal(*m)).len() * free_dofs(diagonal(*m)).len() <= usize::MAX,
        ensures
            match r {
                Ok(p) => {
                    &&& p.free@ == free_dofs(diagonal(*m))
                    &&& p.free@.len() > 0
                    &&& p.a@ == dense_block(*a, p.free@)
                    &&& p.m@ == dense_block(*m, p.free@)
                    &&& forall|g: usize|
                        g < m@.len() ==> (#[trigger] p.free@.contains(g) <==> T::Wide::scaled(
                            1,
                            -100,
                        ).less(
                            wide_or(
                                match m.stored(g as int, g) {
                                    Some(v) => v,
                                    None => T::nought(),
                                },
                                T::Wide::nought(),
                            ),
                        ))
                    &&& forall|i: int, j: int|
                        0 <= i < j < p.free@.len() ==> #[trigger] p.free@[i] < #[trigger] p.free@[j]
                    &&& forall|i: int| 0 <= i < p.free@.len() ==> (#[trigger] p.free@[i]) < m@.len()
                },
                Err(e) => {
                    &&& free_dofs(diagonal(*m)).len() == 0
                    &&& forall|g: usize|
                        g < m@.len() ==> !T::Wide::scaled(1, -100).less(
                            wide_or(
                                match #[trigger] m.stored(g as int, g) {
                                    Some(v) => v,
                                    None => T::nought(),
                                },
                                T::Wide::nought(),
                            ),
                        )
                    &&& is_setup_failure(
                        e,
                        "AME: no free DOFs (M diagonal everywhere below 1e-100)"@,
                    )
                },
            },
    {
        let diag = m.diag();
        let free = find_free(&diag);
        proof {
            assert(diag.len() == diag@.len());
            lemma_free_dofs(diag@);
            assert forall|g: usize| g < m@.len() implies (#[trigger] free@.contains(g)
                <==> T::Wide::scaled(1, -100).less(
                wide_or(
                    match m.stored(g as int, g) {
                        Some(v) => v,
                        None => T::nought(),
                    },
                    T::Wide::nought(),
                ),
            )) by {
                assert(diag@[g as int] == diagonal(*m)[g as int]);
            }
            if free.len() == 0 {
                assert forall|g: usize| g < m@.len() implies !T::Wide::scaled(1, -100).less(
                    wide_or(
                        match #[trigger] m.stored(g as int, g) {
                            Some(v) => v,
                            None => T::nought(),
                        },
                        T::Wide::nought(),
                    ),
                ) by {
                    assert(!free@.contains(g));
                }
            }
        }
        if free.len() == 0 {
            return Err(
                SolverError::PrecondSetupFailed {
                    reason: "AME: no free DOFs (M diagonal everywhere below 1e-100)".to_string(),
                },
            );
        }
        let a_ff = block_of(a, &free);
        let m_ff = block_of(m, &free);
        Ok(FreePencil { free, a: a_ff, m: m_ff })
    }

    /// Completes the solution with the decomposition of the pencil on the free degrees of
    /// freedom: the `nev` smallest eigenvalues above the nullspace threshold, with eigenvectors
    /// and residuals.
    pub fn finish(
        &self,
        a: &CsrMatrix<T>,
        m: &CsrMatrix<T>,
        free: &Vec<usize>,
        outcome: PencilOutcome<T::Wide>,
    ) -> (r: Result<AmeResult<T>, SolverError<T::Wide>>)
        requires
            a.width() == a@.len(),
            m@.len() == a@.len(),
            m.width() == a@.len(),
            free@ == free_dofs(diagonal(*m)),
            free@.len() > 0,
            outcome.fits(free@.len()),
        ensures
            match outcome {
                PencilOutcome::NotPositiveDefinite => r matches Err(e) && is_breakdown(
                    e,
                    "AME: M_ff not positive definite (free-DOF mass matrix)"@,
                ),
                PencilOutcome::SingularFactor => r matches Err(e) && is_breakdown(
                    e,
                    "AME: Cholesky factor of M_ff singular"@,
                ),
                PencilOutcome::Pairs { values, vectors } => r matches Ok(result) && {
                    &&& sorts(values@, false, sorting(values@, false))
                    &&& completes(
                        result,
                        self.cfg.nev as nat,
                        *a,
                        *m,
                        free@,
                        values@,
                        vectors@,
                    )
                },
            },
    {
        match outcome {
            PencilOutcome::NotPositiveDefinite => Err(
                breakdown("AME: M_ff not positive definite (free-DOF mass matrix)"),
            ),
            PencilOutcome::SingularFactor => Err(
                breakdown("AME: Cholesky factor of M_ff singular"),
            ),
            PencilOutcome::Pairs { values, vectors } => {
                let k = self.cfg.nev;
                let n = a.nrows();
                let nf = free.len();
                let order = sort_indices(&values, false);
                let largest = values[order[nf - 1]];
                let threshold = T::Wide::decimal(1, -8).mul(largest.abs().max(T::Wide::one()));
                let picks = pick(&values, &order, threshold, k);
                proof {
                    lemma_free_dofs(diagonal(*m));
                }
                let mut result: AmeResult<T> = AmeResult {
                    eigenvalues: Vec::new(),
                    eigenvectors: Vec::new(),
                    iterations: 1,
                    converged: picks.len() >= k,
                    residuals: Vec::new(),
                };
                let mut j: usize = 0;
                while j < picks.len()
                    invariant
                        j <= picks@.len(),
                        n == a@.len(),
                        nf == free@.len(),
                        values@.len() == nf,
                        vectors.len() == nf * nf,
                        a.width() == a@.len(),
                        m@.len() == a@.len(),
                        m.width() == a@.len(),
                        free@ == free_dofs(diagonal(*m)),
                        forall|i: int| 0 <= i < nf ==> (#[trigger] free@[i]) < a@.len(),
                        forall|i: int, l: int|
                            0 <= i < l < nf ==> #[trigger] free@[i] < #[trigger] free@[l],
                        forall|i: int| 0 <= i < picks@.len() ==> (#[trigger] picks@[i]) < nf,
                        result.iterations == 1,
                        result.converged == (picks@.len() >= k),
                        lists(result, *a, *m, free@, values@, vectors@, picks@.take(j as int)),
                    decreases picks@.len() - j,
                {
                    let i = picks[j];
                    let lambda = T::from_wide(values[i]);
                    let v = extend(&vectors, free, i, n);
                    let norm = residual_norm(a, m, lambda, &v);
                    let ghost before = result;
                    result.residuals.push(norm);
                    result.eigenvalues.push(lambda);
                    result.eigenvectors.push(DenseVec { data: v });
                    j = j + 1;
                    let ghost now = picks@.take(j as int);
                    assert forall|c: int| 0 <= c < j implies {
                        &&& #[trigger] result.eigenvalues@[c] == T::narrowed(
                            values@[now[c] as int],
                        )
                        &&& result.eigenvectors@[c]@ == extended::<T>(
                            vectors@,
                            free@,
                            now[c] as int,
                            a@.len(),
                        )
                        &&& result.residuals@[c] == euclidean(
                            pencil_residual(
                                *a,
                                *m,
                                result.eigenvalues@[c],
                                result.eigenvectors@[c]@,
                            ),
                        )
                    } by {
                        if c < j - 1 {
                            assert(result.eigenvalues@[c] == before.eigenvalues@[c]);
                            assert(result.eigenvectors@[c] == before.eigenvectors@[c]);
                            assert(result.residuals@[c] == before.residuals@[c]);
                            assert(picks@.take(j - 1)[c] == now[c]);
                        }
                    }
                }
                assert(picks@.take(j as int) =~= picks@);
                Ok(result)
            },
        }
    }
}

/// The free degrees of freedom ascend, and are those whose diagonal entry is large enough.
pub proof fn lemma_free_dofs<T: Scalar>(diag: Seq<T>)
    requires
        diag.len() <= usize::MAX,
    ensures
        free_dofs(diag).len() <= diag.len(),
        forall|i: int, j: int|
            0 <= i < j < free_dofs(diag).len() ==> #[trigger] free_dofs(diag)[i]
                < #[trigger] free_dofs(diag)[j],
        forall|i: int|
            0 <= i < free_dofs(diag).len() ==> (#[trigger] free_dofs(diag)[i]) < diag.len(),
        forall|g: usize|
            g < diag.len() ==> (#[trigger] free_dofs(diag).contains(g) <==> is_free(
                diag[g as int],
            )),
    decreases diag.len(),
{
    let all = free_dofs(diag);
    if diag.len() > 0 {
        let rest = diag.drop_last();
        let before = free_dofs(rest);
        lemma_free_dofs(rest);
        let last = (diag.len() - 1) as usize;
        assert forall|i: int| 0 <= i < all.len() implies (#[trigger] all[i]) < diag.len() by {
            if i < before.len() {
                assert(all[i] == before[i]);
            }
        }
        assert forall|i: int, j: int| 0 <= i < j < all.len() implies #[trigger] all[i]
            < #[trigger] all[j] by {
            assert(all[i] == before[i]);
            if j < before.len() {
                assert(all[j] == before[j]);
            }
        }
        assert forall|g: usize| g < diag.len() implies (#[trigger] all.contains(g) <==> is_free(
            diag[g as int],
        )) by {
            if g < last {
                assert(rest[g as int] == diag[g as int]);
                assert(before.contains(g) <==> is_free(diag[g as int]));
                if before.contains(g) {
                    let i = before.index_of(g);
                    assert(all[i] == g);
                }
                if all.contains(g) {
                    let i = all.index_of(g);
                    assert(all[i] == g);
                    assert(before[i] == g);
                }
            } else {
                if is_free(diag[g as int]) {
                    assert(all[all.len() - 1] == g);
                } else if all.contains(g) {
                    let i = all.index_of(g);
                    assert(before[i] == g);
                }
            }
        }
    }
}

/// The nullspace threshold goes by the largest eigenvalue.
pub proof fn lemma_threshold_by_largest<W: Real>(values: Seq<W>, p: int)
    requires
        values.len() > 0,
        totally_ordered(values),
        values.len() <= usize::MAX,
        0 <= p < values.len(),
        forall|q: int| 0 <= q < values.len() && q != p ==> #[trigger] values[q].less(values[p]),
    ensures
        null_threshold(values) == W::scaled(1, -8).times(
            values[p].magnitude().larger(W::unit()),
        ),
{
    lemma_sorting_exists(values, false);
    let order = sorting(values, false);
    let last = order.last() as int;
    if last != p {
        lemma_all_listed(order, values.len(), p as usize);
        let at = choose|c: int| 0 <= c < values.len() && order[c] == p as usize;
        assert(order[at] == p as usize);
        assert(at < order.len() - 1);
        assert(stands_before(values, false, order[at] as int, order[order.len() - 1] as int));
        assert(values[last].less(values[p]));
        if values[p].less(values[last]) {
            assert(values[p].less(values[p]));
        }
    }
}

/// What the solver keeps: at most `k` eigenvalues, all above the nullspace threshold, in
/// ascending order. One above the threshold that is not kept stands after all that are, and then
/// there are `k` of them.
pub proof fn lemma_selected<W: Real>(values: Seq<W>, k: nat)
    requires
        totally_ordered(values),
        values.len() <= usize::MAX,
    ensures
        selected(values, k).len() <= k,
        forall|i: int|
            0 <= i < selected(values, k).len() ==> (#[trigger] selected(values, k)[i])
                < values.len() && !values[selected(values, k)[i] as int].at_most(
                null_threshold(values),
            ),
        forall|i: int, j: int|
            0 <= i < j < selected(values, k).len() ==> stands_before(
                values,
                false,
                #[trigger] selected(values, k)[i] as int,
                #[trigger] selected(values, k)[j] as int,
            ),
        forall|p: usize|
            p < values.len() && !values[p as int].at_most(null_threshold(values)) && !(
            #[trigger] selected(values, k).contains(p)) ==> selected(values, k).len() == k && (
            forall|i: int|
                0 <= i < k ==> stands_before(
                    values,
                    false,
                    #[trigger] selected(values, k)[i] as int,
                    p as int,
                )),
{
    let order = sorting(values, false);
    let threshold = null_threshold(values);
    let all = genuine(values, order, threshold);
    let picks = selected(values, k);
    lemma_sorting_exists(values, false);
    lemma_genuine(values, order, threshold);
    assert forall|i: int| 0 <= i < picks.len() implies (#[trigger] picks[i]) < values.len()
        && !values[picks[i] as int].at_most(threshold) by {
        assert(picks[i] == all[i]);
    }
    assert forall|i: int, j: int| 0 <= i < j < picks.len() implies stands_before(
        values,
        false,
        #[trigger] picks[i] as int,
        #[trigger] picks[j] as int,
    ) by {
        assert(picks[i] == all[i] && picks[j] == all[j]);
    }
    assert forall|p: usize|
        p < values.len() && !values[p as int].at_most(threshold) && !(#[trigger] picks.contains(
            p,
        )) implies picks.len() == k && (forall|i: int|
        0 <= i < k ==> stands_before(values, false, #[trigger] picks[i] as int, p as int)) by {
        lemma_all_listed(order, values.len(), p);
        let at = choose|c: int| 0 <= c < values.len() && order[c] == p;
        assert(order[at] == p);
        assert(all.contains(p));
        let j = all.index_of(p);
        assert(all[j] == p);
        if all.len() <= k {
            assert(picks[j] == p);
        } else if j < k {
            assert(picks[j] == p);
        }
        assert forall|i: int| 0 <= i < k implies stands_before(
            values,
            false,
            #[trigger] picks[i] as int,
            p as int,
        ) by {
            assert(picks[i] == all[i]);
        }
    }
}

/// The nullspace is dropped, and nothing else: where `p` is the position of the largest eigenvalue,
/// no eigenvalue up to 1e-8 times the larger of its absolute value and one is kept. One above that
/// is left out only where as many as asked for are kept, all of which stand before it.
pub proof fn lemma_nullspace_dropped<W: Real>(values: Seq<W>, k: nat, p: int)
    requires
        values.len() <= usize::MAX,
        totally_ordered(values),
        0 <= p < values.len(),
        forall|q: int| 0 <= q < values.len() && q != p ==> #[trigger] values[q].less(values[p]),
    ensures
        ({
            let threshold = W::scaled(1, -8).times(values[p].magnitude().larger(W::unit()));
            let picks = selected(values, k);
            &&& picks.len() <= k
            &&& forall|i: int|
                0 <= i < picks.len() ==> !values[#[trigger] picks[i] as int].at_most(threshold)
            &&& forall|i: int, j: int|
                0 <= i < j < picks.len() ==> !values[#[trigger] picks[j] as int].less(
                    values[#[trigger] picks[i] as int],
                )
            &&& forall|q: usize|
                q < values.len() && !values[q as int].at_most(threshold) && !(
                #[trigger] picks.contains(q)) ==> picks.len() == k && (forall|i: int|
                    0 <= i < k ==> !values[q as int].less(values[#[trigger] picks[i] as int]))
        }),
{
    lemma_threshold_by_largest(values, p);
    lemma_selected(values, k);
    let picks = selected(values, k);
    assert forall|i: int, j: int| 0 <= i < j < picks.len() implies !values[
        #[trigger] picks[j] as int].less(values[#[trigger] picks[i] as int]) by {
        let (u, v) = (picks[i] as int, picks[j] as int);
        assert(stands_before(values, false, u, v));
        if values[v].less(values[u]) && values[u].less(values[v]) {
            assert(values[u].less(values[u]));
        }
    }
    let threshold = null_threshold(values);
    assert forall|q: usize|
        q < values.len() && !values[q as int].at_most(threshold) && !(#[trigger] picks.contains(
            q,
        )) implies picks.len() == k && (forall|i: int|
        0 <= i < k ==> !values[q as int].less(values[#[trigger] picks[i] as int])) by {
        assert forall|i: int| 0 <= i < k implies !values[q as int].less(
            values[#[trigger] picks[i] as int],
        ) by {
            let u = picks[i] as int;
            assert(stands_before(values, false, u, q as int));
            if values[q as int].less(values[u]) && values[u].less(values[q as int]) {
                assert(values[u].less(values[u]));
            }
        }
    }
}

/// A result says that it has converged where it holds as many eigenvalues as were asked for. Where it
/// does not, it holds every eigenvalue above the nullspace threshold, in which `p` is the position of
/// the largest one.
pub proof fn lemma_converged_result<T: Scalar>(
    r: AmeResult<T>,
    nev: nat,
    a: CsrMatrix<T>,
    m: CsrMatrix<T>,
    free: Seq<usize>,
    values: Seq<T::Wide>,
    vectors: Seq<T::Wide>,
    p: int,
    q: int,
)
    requires
        completes(r, nev, a, m, free, values, vectors),
        values.len() <= usize::MAX,
        totally_ordered(values),
        0 <= p < values.len(),
        forall|c: int| 0 <= c < values.len() && c != p ==> #[trigger] values[c].less(values[p]),
        0 <= q < values.len(),
    ensures
        r.eigenvalues@.len() <= nev,
        r.eigenvectors@.len() == r.eigenvalues@.len(),
        r.residuals@.len() == r.eigenvalues@.len(),
        r.iterations == 1,
        r.converged <==> r.eigenvalues@.len() == nev,
        ({
            let threshold = T::Wide::scaled(1, -8).times(
                values[p].magnitude().larger(T::Wide::unit()),
            );
            !r.converged && !values[q].at_most(threshold) ==> r.eigenvalues@.contains(
                T::narrowed(values[q]),
            )
        }),
{
    lemma_nullspace_dropped(values, nev, p);
    let picks = selected(values, nev);
    let threshold = T::Wide::scaled(1, -8).times(values[p].magnitude().larger(T::Wide::unit()));
    if !r.converged && !values[q].at_most(threshold) {
        let u = q as usize;
        assert(picks.contains(u));
        let j = picks.index_of(u);
        assert(r.eigenvalues@[j] == T::narrowed(values[picks[j] as int]));
    }
}

/// The eigenvalues above the threshold keep the order of the list.
proof fn lemma_genuine<W: Real>(values: Seq<W>, order: Seq<usize>, threshold: W)
    requires
        in_order(values, false, order),
    ensures
        forall|i: int|
            0 <= i < genuine(values, order, threshold).len() ==> (#[trigger] genuine(
                values,
                order,
                threshold,
            )[i]) < values.len() && !values[genuine(values, order, threshold)[i] as int].at_most(
                threshold,
            ) && order.contains(genuine(values, order, threshold)[i]),
        forall|i: int, j: int|
            0 <= i < j < genuine(values, order, threshold).len() ==> stands_before(
                values,
                false,
                #[trigger] genuine(values, order, threshold)[i] as int,
                #[trigger] genuine(values, order, threshold)[j] as int,
            ),
        forall|c: int|
            0 <= c < order.len() && !values[order[c] as int].at_most(threshold) ==> genuine(
                values,
                order,
                threshold,
            ).contains(#[trigger] order[c]),
    decreases order.len(),
{
    let all = genuine(values, order, threshold);
    if order.len() > 0 {
        let rest = order.drop_last();
        let before = genuine(values, rest, threshold);
        assert forall|a: int, b: int| 0 <= a < b < rest.len() implies stands_before(
            values,
            false,
            #[trigger] rest[a] as int,
            #[trigger] rest[b] as int,
        ) && rest[a] != rest[b] by {
            assert(rest[a] == order[a] && rest[b] == order[b]);
        }
        assert(in_order(values, false, rest));
        lemma_genuine(values, rest, threshold);
        assert forall|i: int| 0 <= i < all.len() implies (#[trigger] all[i]) < values.len()
            && !values[all[i] as int].at_most(threshold) && order.contains(all[i]) by {
            if i < before.len() {
                assert(all[i] == before[i]);
                let c = rest.index_of(before[i]);
                assert(rest[c] == before[i]);
                assert(order[c] == before[i]);
            } else {
                assert(order[order.len() - 1] == all[i]);
            }
        }
        assert forall|i: int, j: int| 0 <= i < j < all.len() implies stands_before(
            values,
            false,
            #[trigger] all[i] as int,
            #[trigger] all[j] as int,
        ) by {
            assert(all[i] == before[i]);
            if j < before.len() {
                assert(all[j] == before[j]);
            } else {
                let c = rest.index_of(before[i]);
                assert(rest[c] == before[i]);
                assert(order[c] == before[i] && order[order.len() - 1] == all[j]);
            }
        }
        assert forall|c: int|
            0 <= c < order.len() && !values[order[c] as int].at_most(
                threshold,
            ) implies all.contains(#[trigger] order[c]) by {
            if c < rest.len() {
                assert(rest[c] == order[c]);
                assert(before.contains(rest[c]));
                let i = before.index_of(rest[c]);
                assert(all[i] == order[c]);
            } else {
                assert(all[all.len() - 1] == order[c]);
            }
        }
    }
}

/// An eigenvector vanishes on the essential degrees of freedom.
pub proof fn lemma_zero_on_boundary<T: Scalar>(
    vectors: Seq<T::Wide>,
    diag: Seq<T>,
    i: int,
    g: usize,
)
    requires
        g < diag.len() <= usize::MAX,
        !is_free(diag[g as int]),
    ensures
        extended::<T>(vectors, free_dofs(diag), i, diag.len())[g as int] == T::nought(),
{
    lemma_free_dofs(diag);
}

/// The free degrees of freedom for a given diagonal of `M`.
fn find_free<T: Scalar>(diag: &Vec<T>) -> (free: Vec<usize>)
    ensures
        free@ == free_dofs(diag@),
{
    let threshold = T::Wide::decimal(1, -100);
    let mut free: Vec<usize> = Vec::new();
    let mut i: usize = 0;
    assert(diag@.take(0) =~= Seq::empty());
    while i < diag.len()
        invariant
            i <= diag@.len(),
            threshold == T::Wide::scaled(1, -100),
            free@ == free_dofs(diag@.take(i as int)),
        decreases diag@.len() - i,
    {
        assert(diag@.take(i + 1).drop_last() =~= diag@.take(i as int));
        if threshold.lt(widen(diag[i], T::Wide::zero())) {
            free.push(i);
        }
        i = i + 1;
    }
    assert(diag@.take(i as int) =~= diag@);
    free
}

/// The block of a matrix on the given rows and columns.
fn block_of<T: Scalar>(mat: &CsrMatrix<T>, free: &Vec<usize>) -> (block: Vec<T::Wide>)
    requires
        forall|i: int| 0 <= i < free@.len() ==> (#[trigger] free@[i]) < mat@.len(),
        free@.len() * free@.len() <= usize::MAX,
    ensures
        block@ == dense_block(*mat, free@),
{
    let nf = free.len();
    let ghost want = dense_block(*mat, free@);
    let mut block: Vec<T::Wide> = Vec::new();
    let mut r: usize = 0;
    while r < nf
        invariant
            r <= nf,
            nf == free@.len(),
            forall|i: int| 0 <= i < free@.len() ==> (#[trigger] free@[i]) < mat@.len(),
            want == dense_block(*mat, free@),
            block@.len() == r * nf,
            forall|p: int| 0 <= p < r * nf ==> block@[p] == want[p],
        decreases nf - r,
    {
        assert(r * nf + nf == (r + 1) * nf) by (nonlinear_arith);
        let mut c: usize = 0;
        while c < nf
            invariant
                c <= nf,
                r < nf,
                nf == free@.len(),
                forall|i: int| 0 <= i < free@.len() ==> (#[trigger] free@[i]) < mat@.len(),
                want == dense_block(*mat, free@),
                block@.len() == r * nf + c,
                forall|p: int| 0 <= p < r * nf + c ==> block@[p] == want[p],
            decreases nf - c,
        {
            proof {
                lemma_position(r as int, c as int, nf as int, nf as int);
            }
            assert(free@[r as int] < mat@.len());
            let entry = match mat.get(free[r], free[c]) {
                Some(v) => widen(v, T::Wide::zero()),
                None => T::Wide::zero(),
            };
            block.push(entry);
            c = c + 1;
        }
        r = r + 1;
    }
    assert(block@ =~= want);
    block
}

/// More candidates only add to the end of the list.
proof fn lemma_genuine_grows<W: Real>(values: Seq<W>, order: Seq<usize>, threshold: W, j: int)
    requires
        0 <= j <= order.len(),
    ensures
        genuine(values, order.take(j), threshold).len() <= genuine(values, order, threshold).len(),
        genuine(values, order, threshold).take(
            genuine(values, order.take(j), threshold).len() as int,
        ) == genuine(values, order.take(j), threshold),
    decreases order.len(),
{
    let part = genuine(values, order.take(j), threshold);
    let all = genuine(values, order, threshold);
    if j == order.len() {
        assert(order.take(j) =~= order);
        assert(all.take(part.len() as int) =~= part);
    } else {
        let rest = order.drop_last();
        lemma_genuine_grows(values, rest, threshold, j);
        assert(rest.take(j) =~= order.take(j));
        assert(all.take(part.len() as int) =~= genuine(values, rest, threshold).take(
            part.len() as int,
        ));
    }
}

/// The first `k` of the listed eigenvalues that lie above the threshold.
fn pick<W: Real>(values: &Vec<W>, order: &Vec<usize>, threshold: W, k: usize) -> (picks: Vec<usize>)
    requires
        forall|i: int| 0 <= i < order@.len() ==> (#[trigger] order@[i]) < values@.len(),
    ensures
        picks@ == ({
            let all = genuine(values@, order@, threshold);
            if all.len() <= k {
                all
            } else {
                all.take(k as int)
            }
        }),
        forall|i: int| 0 <= i < picks@.len() ==> (#[trigger] picks@[i]) < values@.len(),
{
    let mut picks: Vec<usize> = Vec::new();
    let mut j: usize = 0;
    assert(order@.take(0) =~= Seq::empty());
    while j < order.len()
        invariant
            j <= order@.len(),
            picks@.len() <= k,
            picks@ == genuine(values@, order@.take(j as int), threshold),
            forall|i: int| 0 <= i < order@.len() ==> (#[trigger] order@[i]) < values@.len(),
            forall|i: int| 0 <= i < picks@.len() ==> (#[trigger] picks@[i]) < values@.len(),
        decreases order@.len() - j,
    {
        let i = order[j];
        assert(order@.take(j + 1).drop_last() =~= order@.take(j as int));
        assert(i < values@.len());
        if !values[i].le(threshold) {
            if picks.len() >= k {
                proof {
                    lemma_genuine_grows(values@, order@, threshold, j as int);
                    lemma_genuine_grows(values@, order@, threshold, j + 1);
                }
                return picks;
            }
            picks.push(i);
        }
        j = j + 1;
    }
    assert(order@.take(j as int) =~= order@);
    picks
}

/// Column `i` of the matrix `vectors`, extended by zero.
fn extend<T: Scalar>(vectors: &Vec<T::Wide>, free: &Vec<usize>, i: usize, len: usize) -> (v: Vec<T>)
    requires
        vectors.len() == free@.len() * free@.len(),
        i < free@.len(),
        forall|f: int| 0 <= f < free@.len() ==> (#[trigger] free@[f]) < len,
        forall|f: int, g: int| 0 <= f < g < free@.len() ==> #[trigger] free@[f] < #[trigger] free@[g],
    ensures
        v@ == extended::<T>(vectors@, free@, i as int, len as nat),
{
    let nf = free.len();
    let mut v: Vec<T> = filled(len, T::zero());
    let mut f: usize = 0;
    while f < nf
        invariant
            f <= nf,
            nf == free@.len(),
            i < nf,
            vectors.len() == nf * nf,
            v@.len() == len,
            forall|c: int| 0 <= c < nf ==> (#[trigger] free@[c]) < len,
            forall|c: int, g: int|
                0 <= c < g < free@.len() ==> #[trigger] free@[c] < #[trigger] free@[g],
            forall|c: int|
                0 <= c < f ==> v@[#[trigger] free@[c] as int] == T::narrowed(vectors@[c * nf + i]),
            forall|g: int|
                0 <= g < len && !free@.take(f as int).contains(g as usize) ==> #[trigger] v@[g]
                    == T::nought(),
        decreases nf - f,
    {
        proof {
            lemma_position(f as int, i as int, nf as int, nf as int);
        }
        let ghost before = v@;
        assert(free@[f as int] < len);
        v.set(free[f], T::from_wide(vectors[f * nf + i]));
        f = f + 1;
        assert forall|g: int|
            0 <= g < len && !free@.take(f as int).contains(g as usize) implies #[trigger] v@[g]
            == T::nought() by {
            assert(free@.take(f as int)[f - 1] == free@[f - 1]);
            assert(g != free@[f - 1]);
            if free@.take(f - 1).contains(g as usize) {
                let c = free@.take(f - 1).index_of(g as usize);
                assert(free@.take(f as int)[c] == g as usize);
            }
            assert(before[g] == T::nought());
        }
    }
    assert forall|g: int| 0 <= g < len implies v@[g] == #[trigger] extended::<T>(
        vectors@,
        free@,
        i as int,
        len as nat,
    )[g] by {
        assert(free@.take(f as int) =~= free@);
        if free@.contains(g as usize) {
            let c = free@.index_of(g as usize);
            assert(free@[c] == g as usize);
            assert(v@[free@[c] as int] == T::narrowed(vectors@[c * nf + i]));
        }
    }
    assert(v@ =~= extended::<T>(vectors@, free@, i as int, len as nat));
    v
}

/// The norm of `A v − λ M v`.
fn residual_norm<T: Scalar>(a: &CsrMatrix<T>, m: &CsrMatrix<T>, lambda: T, v: &Vec<T>) -> (norm: T)
    requires
        a@.len() == v@.len(),
        a.width() == v@.len(),
        m@.len() == v@.len(),
        m.width() == v@.len(),
    ensures
        norm == euclidean(pencil_residual(*a, *m, lambda, v@)),
{
    let av = a.spmv(v.as_slice());
    let mv = m.spmv(v.as_slice());
    let ghost want = pencil_residual(*a, *m, lambda, v@);
    let mut r: Vec<T> = Vec::new();
    let mut i: usize = 0;
    while i < v.len()
        invariant
            i <= v@.len(),
            a@.len() == v@.len(),
            m@.len() == v@.len(),
            av@ == product(a@, v@),
            mv@ == product(m@, v@),
            want == pencil_residual(*a, *m, lambda, v@),
            r@ == want.take(i as int),
        decreases v@.len() - i,
    {
        r.push(av[i].sub(lambda.mul(mv[i])));
        i = i + 1;
        assert(r@ =~= want.take(i as int));
    }
    assert(r@ =~= want);
    dot(r.as_slice(), r.as_slice()).sqrt()
}

} // verus!
