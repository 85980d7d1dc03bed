//! LOBPCG, the locally optimal block preconditioned conjugate gradient method, for the
//! symmetric eigenproblem `A x = λ B x`.
//!
//! # Algorithm
//!
//! ```text
//! X₀ = initial block, B-orthonormalised by implicit QR (Cholesky of XᵀBX)
//! AX = A·X₀;  initial Rayleigh–Ritz → (λ, coordX);  X ← X·coordX, …
//! R  = BX·diag(λ) − AX                       (block residual)
//! loop (soft locking):
//!   active = { j : ‖Rⱼ‖ > |λⱼ|·tol + tol + eps }     (the others are locked)
//!   R = T(R);  B-orthonormalise the R block;  AR = A·R
//!   B-orthonormalise the P block (iteration > 1)
//!   assemble the Gram matrices on the search space [X | R | P]
//!     (X block: diag(λ)/I; the second matrix has I on the R and P blocks)
//!   solve gramA u = θ gramB u
//!   λ ← θ[1..k], or the last k of θ for the top modes;  coordX = their eigenvectors
//!   P ← P·coordPX + R·coordRX;  AP, BP likewise
//!   X ← X·coordXX + P;  AX, BX likewise
//!   R ← BX·diag(λ) − AX   (active columns only)
//! ```
//!
//! Converged columns are left out of the search directions and keep their residuals, and `X` is
//! only ever rotated and moved along directions that have gone through the projector, so a
//! subspace to which the projector confines the search is never left.
//!
//! The two kinds of small dense decompositions that an iteration needs are asked for: a run
//! is a sequence of steps, each of which either ends the run or hands out a matrix and
//! continues when it is given the decomposition of it.
use super::block::{
    accumulate, add_combination, all_below, all_of_length, combined, first_indices, gram,
    gram_sub, index_range, mirrored, residual, residual_vec, scatter, scattered, symmetrize,
    transpose, transposed, vecs_combine,
};
use super::dense::{
    ascending_values, ascending_vectors, chol_upper_inv, dense_symm_eig_gen, PencilOutcome,
};
use super::{EigenParams, EigenResult, EigenWhich};
use crate::error::{breakdown, is_breakdown, SolverError};
use crate::index::{lemma_position, lemma_row_and_column};
use crate::operator::{LinearOperator, Preconditioner};
use crate::order::{
    gather, lemma_gathered_stay_ordered, sort_indices, sorting, sorts, stands_before,
    totally_ordered,
};
use crate::scalar::{
    narrowed_all, wide_or, widen, widen_all, widened_all, Field, Real, Scalar,
};
use crate::vector::{columns, dot, dot_product, euclidean, zero_vector, DenseVec};
use vstd::prelude::*;

verus! {

/// LOBPCG eigensolver for symmetric positive definite operators.
///
/// Set `which = EigenWhich::SmallestAlgebraic` for structural modes, or `LargestAlgebraic` for the
/// top modes.
#[verifier::reject_recursive_types(T)]
pub struct Lobpcg<'p, T: Scalar> {
    /// Optional preconditioner `T⁻¹ ≈ A⁻¹`.
    pub precond: Option<&'p dyn Preconditioner<T>>,
    /// Optional operator `B` of the generalised problem `A x = λ B x`; without it the
    /// standard problem `A x = λ x` is solved.
    pub b_op: Option<&'p dyn LinearOperator<T>>,
    /// Optional projection that is applied to the initial block and after every
    /// preconditioning.
    pub projector: Option<&'p dyn Preconditioner<T>>,
    /// Entries that are set to zero in the initial block, before it is projected.
    pub zero_dofs: Option<&'p [usize]>,
    /// The seed from which the seeds of the initial columns are derived.
    pub seed: u64,
}

/// Where a run waits for a decomposition.
#[derive(Clone, Copy, Debug)]
pub enum Stage {
    /// For the factor that orthonormalises the initial block.
    InitialBasis,
    /// For the initial Rayleigh–Ritz pairs.
    InitialRitz,
    /// For the factor that orthonormalises the residuals.
    ResidualBasis,
    /// For the factor that orthonormalises the directions.
    DirectionBasis,
    /// For the Rayleigh–Ritz pairs on the search space with the given number of directions.
    Ritz {
        /// The number of directions.
        directions: usize,
    },
}

/// A run that waits for a decomposition.
pub struct LobpcgState<T: Scalar> {
    /// What it waits for.
    pub stage: Stage,
    /// The current iteration, counted from one.
    pub iteration: usize,
    /// The columns that have not converged, ascending.
    pub active: Vec<usize>,
    /// The iterates.
    pub x: Vec<DenseVec<T>>,
    /// Their images under `A`.
    pub ax: Vec<DenseVec<T>>,
    /// Their images under `B`.
    pub bx: Vec<DenseVec<T>>,
    /// The residuals, preconditioned where active.
    pub r: Vec<DenseVec<T>>,
    /// The images of the active residuals under `A`.
    pub ar: Vec<DenseVec<T>>,
    /// The images of the active residuals under `B`.
    pub br: Vec<DenseVec<T>>,
    /// The conjugate directions.
    pub p: Vec<DenseVec<T>>,
    /// Their images under `A`.
    pub ap: Vec<DenseVec<T>>,
    /// Their images under `B`.
    pub bp: Vec<DenseVec<T>>,
    /// The Ritz values.
    pub lambda: Vec<T>,
    /// The norms of the residuals.
    pub res_norms: Vec<T>,
}

/// The matrix whose decomposition a run waits for, stored row after row.
pub enum Request<W> {
    /// The inverse of the upper Cholesky factor of a symmetric matrix is wanted.
    Factor {
        /// The matrix.
        matrix: Vec<W>,
        /// Its number of rows.
        size: usize,
    },
    /// The eigenpairs of the pencil `A c = θ B c` are wanted.
    Pencil {
        /// The matrix `A`.
        a: Vec<W>,
        /// The matrix `B`.
        b: Vec<W>,
        /// Their number of rows.
        size: usize,
    },
}

/// The answer to a request.
pub enum Reply<W> {
    /// The inverse of the upper Cholesky factor, none where the matrix is not positive
    /// definite.
    Factor(Option<Vec<W>>),
    /// The eigenpairs of the pencil.
    Pencil(PencilOutcome<W>),
}

/// What a run does next.
pub enum Step<T: Scalar> {
    /// It waits for the answer to a request.
    Continue {
        /// The run.
        state: LobpcgState<T>,
        /// The request.
        request: Request<T::Wide>,
    },
    /// It has ended.
    Done(Result<EigenResult<T>, SolverError<T::Wide>>),
}

/// The contents of a waiting run.
#[verifier::ext_equal]
pub struct LobpcgModel<T> {
    pub stage: Stage,
    pub iteration: nat,
    pub active: Seq<usize>,
    pub x: Seq<Seq<T>>,
    pub ax: Seq<Seq<T>>,
    pub bx: Seq<Seq<T>>,
    pub r: Seq<Seq<T>>,
    pub ar: Seq<Seq<T>>,
    pub br: Seq<Seq<T>>,
    pub p: Seq<Seq<T>>,
    pub ap: Seq<Seq<T>>,
    pub bp: Seq<Seq<T>>,
    pub lambda: Seq<T>,
    pub res_norms: Seq<T>,
}

/// The contents of a reply.
pub enum ReplyModel<W> {
    Factor(Option<Seq<W>>),
    NotPositiveDefinite,
    SingularFactor,
    Pairs { values: Seq<W>, vectors: Seq<W> },
}

/// What a step comes to.
pub enum StepModel<T: Scalar> {
    /// The run waits for the inverse factor of a matrix.
    Factor { state: LobpcgModel<T>, matrix: Seq<T::Wide>, size: nat },
    /// The run waits for the eigenpairs of a pencil.
    Pencil { state: LobpcgModel<T>, a: Seq<T::Wide>, b: Seq<T::Wide>, size: nat },
    /// Every column converged.
    Converged { state: LobpcgModel<T> },
    /// A decomposition does not exist.
    Broken { detail: Seq<char> },
    /// The iteration limit was reached.
    Exhausted { residual: T::Wide },
}

impl<T: Scalar> LobpcgState<T> {
    /// The contents of the run.
    pub open spec fn model(self) -> LobpcgModel<T> {
        LobpcgModel {
            stage: self.stage,
            iteration: self.iteration as nat,
            active: self.active@,
            x: columns(self.x@),
            ax: columns(self.ax@),
            bx: columns(self.bx@),
            r: columns(self.r@),
            ar: columns(self.ar@),
            br: columns(self.br@),
            p: columns(self.p@),
            ap: columns(self.ap@),
            bp: columns(self.bp@),
            lambda: self.lambda@,
            res_norms: self.res_norms@,
        }
    }
}

impl<W> Reply<W> {
    /// The contents of the reply.
    pub open spec fn model(self) -> ReplyModel<W> {
        match self {
            Reply::Factor(None) => ReplyModel::Factor(None),
            Reply::Factor(Some(u)) => ReplyModel::Factor(Some(u@)),
            Reply::Pencil(PencilOutcome::NotPositiveDefinite) => ReplyModel::NotPositiveDefinite,
            Reply::Pencil(PencilOutcome::SingularFactor) => ReplyModel::SingularFactor,
            Reply::Pencil(PencilOutcome::Pairs { values, vectors }) => ReplyModel::Pairs {
                values: values@,
                vectors: vectors@,
            },
        }
    }
}

/// The block has `k` columns of length `n`.
pub open spec fn is_block<T>(block: Seq<Seq<T>>, k: nat, n: nat) -> bool {
    block.len() == k && all_of_length(block, n)
}

/// The Ritz values can be sorted by value and by absolute value.
pub open spec fn sortable<T: Scalar>(lambda: Seq<T>) -> bool {
    totally_ordered(lambda) && totally_ordered(magnitudes(lambda))
}

/// The absolute values in double precision.
pub open spec fn magnitudes<T: Scalar>(lambda: Seq<T>) -> Seq<T::Wide> {
    Seq::new(lambda.len(), |j: int| wide_or(lambda[j], T::Wide::nought()).magnitude())
}

impl<T: Scalar> LobpcgModel<T> {
    /// The blocks that the stage needs are there: `k` columns of length `n`.
    pub open spec fn wf(self, k: nat, n: nat) -> bool {
        &&& is_block(self.x, k, n)
        &&& is_block(self.bx, k, n)
        &&& !(self.stage is InitialBasis) ==> is_block(self.ax, k, n)
        &&& !(self.stage is InitialBasis || self.stage is InitialRitz) ==> {
            &&& is_block(self.r, k, n)
            &&& is_block(self.br, k, n)
            &&& is_block(self.p, k, n)
            &&& is_block(self.ap, k, n)
            &&& is_block(self.bp, k, n)
            &&& self.lambda.len() == k
            &&& self.res_norms.len() == k
            &&& sortable(self.lambda)
            &&& 1 <= self.active.len() <= k
            &&& all_below(self.active, k)
            &&& self.iteration >= 1
        }
        &&& self.stage is DirectionBasis || self.stage is Ritz ==> is_block(self.ar, k, n)
        &&& self.stage matches Stage::Ritz { directions } ==> directions == 0 || directions
            == self.active.len()
    }

    /// The size of the matrices that the run has handed out.
    pub open spec fn request_size(self) -> nat {
        match self.stage {
            Stage::InitialBasis => self.x.len(),
            Stage::InitialRitz => self.x.len(),
            Stage::ResidualBasis => self.active.len(),
            Stage::DirectionBasis => self.active.len(),
            Stage::Ritz { directions } => self.x.len() + self.active.len() + directions as nat,
        }
    }

    /// The reply is of the kind and size that the run waits for, and the eigenvalues it
    /// holds can be compared.
    pub open spec fn answered_by(self, reply: ReplyModel<T::Wide>) -> bool {
        let size = self.request_size();
        match reply {
            ReplyModel::Factor(u) => {
                &&& self.stage is InitialBasis || self.stage is ResidualBasis
                    || self.stage is DirectionBasis
                &&& u matches Some(m) ==> m.len() == size * size
            },
            ReplyModel::Pairs { values, vectors } => {
                &&& self.stage is InitialRitz || self.stage is Ritz
                &&& values.len() == size
                &&& vectors.len() == size * size
                &&& totally_ordered(values)
                &&& sortable(narrowed_all::<T>(values))
            },
            _ => self.stage is InitialRitz || self.stage is Ritz,
        }
    }
}


/// Column `j` has not converged: its residual exceeds `|λ|·tol + tol + eps`.
pub open spec fn unconverged<T: Scalar>(lambda: T, res_norm: T, tol: T::Wide) -> bool {
    let res = wide_or(res_norm, T::Wide::unbounded());
    let size = wide_or(lambda, T::Wide::nought()).magnitude();
    size.times(tol).plus(tol).plus(T::Wide::resolution()).less(res)
}

/// The columns among the first `j` that have not converged.
pub open spec fn unconverged_columns<T: Scalar>(
    lambda: Seq<T>,
    res_norms: Seq<T>,
    tol: T::Wide,
    j: nat,
) -> Seq<usize>
    decreases j,
{
    if j == 0 {
        Seq::empty()
    } else {
        let rest = unconverged_columns(lambda, res_norms, tol, (j - 1) as nat);
        if unconverged(lambda[j - 1], res_norms[j - 1], tol) {
            rest.push((j - 1) as usize)
        } else {
            rest
        }
    }
}

/// The largest of the first `j` residual norms, at least zero.
pub open spec fn largest<T: Real>(res_norms: Seq<T>, j: nat) -> T
    decreases j,
{
    if j == 0 {
        T::nought()
    } else {
        let rest = largest(res_norms, (j - 1) as nat);
        if rest.less(res_norms[j - 1]) {
            res_norms[j - 1]
        } else {
            rest
        }
    }
}

/// The order in which the pairs are returned.
pub open spec fn result_order<T: Scalar>(lambda: Seq<T>, which: EigenWhich) -> Seq<usize> {
    match which {
        EigenWhich::SmallestAlgebraic => sorting(lambda, false),
        EigenWhich::SmallestMagnitude => sorting(lambda, false),
        EigenWhich::LargestAlgebraic => sorting(lambda, true),
        EigenWhich::LargestMagnitude => sorting(magnitudes(lambda), true),
        EigenWhich::BothEnds => {
            let ascending = sorting(lambda, false);
            let half = lambda.len() / 2;
            ascending.take(half as int) + ascending.skip(half as int).reverse()
        },
    }
}

/// The first of the `k` Ritz pairs that are kept of `size` ascending ones: those with the largest
/// Ritz values where the top modes are wanted, those with the smallest otherwise.
pub open spec fn first_kept(which: EigenWhich, size: nat, k: nat) -> nat {
    if which is LargestAlgebraic && size >= k {
        (size - k) as nat
    } else {
        0
    }
}

/// The `k` Ritz values that are kept of ascending ones.
pub open spec fn kept_values<T>(values: Seq<T>, k: nat, which: EigenWhich) -> Seq<T> {
    let from = first_kept(which, values.len(), k);
    values.subrange(from as int, (from + k) as int)
}

/// The coordinates of the `k` Ritz vectors that are kept of `size` ones that stand one after the
/// other.
pub open spec fn kept_coords<T>(coords: Seq<T>, size: nat, k: nat, which: EigenWhich) -> Seq<T> {
    let from = first_kept(which, size, k);
    coords.subrange((from * size) as int, ((from + k) * size) as int)
}

/// Eigenvalues stand in the order that was asked for.
pub open spec fn ordered_by<T: Scalar>(values: Seq<T>, which: EigenWhich) -> bool {
    match which {
        EigenWhich::SmallestAlgebraic | EigenWhich::SmallestMagnitude => forall|i: int, j: int|
            0 <= i < j < values.len() ==> !(#[trigger] values[j].less(values[i])),
        EigenWhich::LargestAlgebraic => forall|i: int, j: int|
            0 <= i < j < values.len() ==> !(#[trigger] values[i].less(values[j])),
        EigenWhich::LargestMagnitude => forall|i: int, j: int|
            0 <= i < j < values.len() ==> !(#[trigger] magnitudes(values)[i].less(
                magnitudes(values)[j],
            )),
        EigenWhich::BothEnds => {
            let half = values.len() / 2;
            &&& forall|i: int, j: int|
                0 <= i < half && i < j < values.len() ==> !(#[trigger] values[j].less(values[i]))
            &&& forall|i: int, j: int|
                half <= i < j < values.len() ==> !(#[trigger] values[i].less(values[j]))
        },
    }
}

/// The list holds every index below `k` once.
pub open spec fn lists_each_once(order: Seq<usize>, k: nat) -> bool {
    &&& order.len() == k
    &&& all_below(order, k)
    &&& forall|a: int, b: int| 0 <= a < b < k ==> #[trigger] order[a] != #[trigger] order[b]
}

/// `f` of every listed column of `from`.
pub open spec fn mapped<T>(from: Seq<Seq<T>>, rows: Seq<usize>, f: spec_fn(Seq<T>) -> Seq<T>) -> Seq<
    Seq<T>,
> {
    Seq::new(rows.len(), |i: int| f(from[rows[i] as int]))
}

/// A block of `k` zero columns of length `n`.
pub open spec fn zero_block<T: Field>(k: nat, n: nat) -> Seq<Seq<T>> {
    Seq::new(k, |j: int| zero_vector::<T>(n))
}

/// The symmetric matrix with the given lower triangle.
pub open spec fn symmetric<T>(lower: spec_fn(int, int) -> T, size: nat) -> Seq<T> {
    Seq::new(
        size * size,
        |p: int|
            {
                let (i, j) = (p / size as int, p % size as int);
                if i >= j {
                    lower(i, j)
                } else {
                    lower(j, i)
                }
            },
    )
}

impl<T: Scalar> LobpcgModel<T> {
    /// Entry `(i, j)`, `i >= j`, of the Gram matrix of `A` on the search space
    /// `[X | R | P]`. `X` diagonalises `A`, and its block is not computed again.
    pub open spec fn gram_a(self, i: int, j: int) -> T {
        let (k, s) = (self.x.len() as int, self.active.len() as int);
        if i < k {
            if i == j {
                self.lambda[i]
            } else {
                T::nought()
            }
        } else {
            let row = if i < k + s {
                self.r[self.active[i - k] as int]
            } else {
                self.p[self.active[i - k - s] as int]
            };
            let col = if j < k {
                self.ax[j]
            } else if j < k + s {
                self.ar[self.active[j - k] as int]
            } else {
                self.ap[self.active[j - k - s] as int]
            };
            dot_product(row, col)
        }
    }

    /// Entry `(i, j)`, `i >= j`, of the Gram matrix of `B` on the search space
    /// `[X | R | P]`. Each of the three blocks is orthonormal; only the products of different
    /// blocks are computed.
    pub open spec fn gram_b(self, i: int, j: int) -> T {
        let (k, s) = (self.x.len() as int, self.active.len() as int);
        if i < k || (k <= j && i < k + s) || k + s <= j {
            if i == j {
                T::unit()
            } else {
                T::nought()
            }
        } else {
            let row = if i < k + s {
                self.r[self.active[i - k] as int]
            } else {
                self.p[self.active[i - k - s] as int]
            };
            let col = if j < k {
                self.bx[j]
            } else {
                self.br[self.active[j - k] as int]
            };
            dot_product(row, col)
        }
    }

    /// The run asks for the eigenpairs on the search space with `directions` directions.
    pub open spec fn asks_for_pairs(self, directions: usize) -> StepModel<T> {
        let size = self.x.len() + self.active.len() + directions as nat;
        StepModel::Pencil {
            state: LobpcgModel { stage: Stage::Ritz { directions }, ..self },
            a: widened_all(symmetric(|i: int, j: int| self.gram_a(i, j), size)),
            b: widened_all(symmetric(|i: int, j: int| self.gram_b(i, j), size)),
            size,
        }
    }

    /// Column `j` of the new directions: the old directions `dirs` and the residuals `res`,
    /// combined with the coordinates that the Ritz vectors have on them.
    pub open spec fn moved_direction(
        self,
        directions: nat,
        coords: Seq<T>,
        dirs: Seq<Seq<T>>,
        res: Seq<Seq<T>>,
        n: nat,
        j: int,
    ) -> Seq<T> {
        let (k, s) = (self.x.len(), self.active.len());
        let size = k + s + directions;
        let along = if self.iteration > 1 && directions > 0 {
            accumulate(
                zero_vector::<T>(n),
                coords.subrange(j * size + k + s, j * size + k + s + s),
                gather(dirs, self.active),
                s,
            )
        } else {
            zero_vector::<T>(n)
        };
        accumulate(
            along,
            coords.subrange(j * size + k, j * size + k + s),
            gather(res, self.active),
            s,
        )
    }

    /// The new directions.
    pub open spec fn moved_directions(
        self,
        directions: nat,
        coords: Seq<T>,
        dirs: Seq<Seq<T>>,
        res: Seq<Seq<T>>,
        n: nat,
    ) -> Seq<Seq<T>> {
        Seq::new(
            self.x.len(),
            |j: int| self.moved_direction(directions, coords, dirs, res, n, j),
        )
    }

    /// The new iterates: the old ones `block`, rotated, plus the new directions `dirs`.
    pub open spec fn moved_iterates(
        self,
        directions: nat,
        coords: Seq<T>,
        block: Seq<Seq<T>>,
        dirs: Seq<Seq<T>>,
        n: nat,
    ) -> Seq<Seq<T>> {
        let k = self.x.len();
        let size = k + self.active.len() + directions;
        Seq::new(
            k,
            |j: int|
                crate::vector::plus_multiple(
                    accumulate(
                        zero_vector::<T>(n),
                        coords.subrange(j * size, j * size + k),
                        gather(block, first_indices(k)),
                        k,
                    ),
                    T::unit(),
                    dirs[j],
                ),
        )
    }

    /// The iterates, Ritz values, directions and residuals after a Rayleigh–Ritz step on the
    /// search space: `lambda` are the Ritz values that are kept and `coords` the coordinates of
    /// their Ritz vectors, one vector after the other. Only active columns get a new residual.
    pub open spec fn moved(self, directions: nat, lambda: Seq<T>, coords: Seq<T>, n: nat) -> Self {
        let p = self.moved_directions(directions, coords, self.p, self.r, n);
        let ap = self.moved_directions(directions, coords, self.ap, self.ar, n);
        let bp = self.moved_directions(directions, coords, self.bp, self.br, n);
        let x = self.moved_iterates(directions, coords, self.x, p, n);
        let ax = self.moved_iterates(directions, coords, self.ax, ap, n);
        let bx = self.moved_iterates(directions, coords, self.bx, bp, n);
        let fresh = Seq::new(
            self.active.len(),
            |i: int|
                residual(
                    bx[self.active[i] as int],
                    ax[self.active[i] as int],
                    lambda[self.active[i] as int],
                ),
        );
        LobpcgModel {
            x,
            ax,
            bx,
            p,
            ap,
            bp,
            lambda,
            r: scattered(self.r, self.active, fresh, self.active.len()),
            res_norms: scattered(
                self.res_norms,
                self.active,
                Seq::new(self.active.len(), |i: int| euclidean(fresh[i])),
                self.active.len(),
            ),
            ..self
        }
    }
}

impl<'p, T: Scalar> Lobpcg<'p, T> {
    /// `B` acts on vectors of length `n`.
    pub open spec fn acts_on(self, n: nat) -> bool {
        self.b_op matches Some(b) ==> b.rows() == n && b.cols() == n
    }

    /// `B·x`.
    pub open spec fn b_image(self, x: Seq<T>) -> Seq<T> {
        match self.b_op {
            Some(b) => b.image(x),
            None => x,
        }
    }

    /// The projection of `x`.
    pub open spec fn projected(self, x: Seq<T>) -> Seq<T> {
        match self.projector {
            Some(q) => q.correction(x),
            None => x,
        }
    }

    /// The preconditioned and then projected `r`.
    pub open spec fn corrected(self, r: Seq<T>) -> Seq<T> {
        self.projected(
            match self.precond {
                Some(m) => m.correction(r),
                None => r,
            },
        )
    }

    /// `x` with the eliminated entries set to zero.
    pub open spec fn eliminated(self, x: Seq<T>) -> Seq<T> {
        match self.zero_dofs {
            Some(dofs) => Seq::new(
                x.len(),
                |i: int|
                    if dofs@.contains(i as usize) {
                        T::nought()
                    } else {
                        x[i]
                    },
            ),
            None => x,
        }
    }

    /// The seed of column `j` of the initial block.
    pub open spec fn seed_of(self, j: int) -> int {
        (self.seed + j * 0xdeadbeef) % 0x1_0000_0000_0000_0000
    }

    /// The tolerance in double precision.
    pub open spec fn tolerance(params: EigenParams<T>) -> T::Wide {
        wide_or(params.tol, T::Wide::scaled(1, -10))
    }

    /// How a run starts: with the initial block, eliminated and projected.
    pub open spec fn started(self, initial: Seq<Seq<T>>) -> StepModel<T> {
        let k = initial.len();
        let x = Seq::new(k, |j: int| self.projected(self.eliminated(initial[j])));
        let bx = Seq::new(k, |j: int| self.b_image(x[j]));
        let all = first_indices(k);
        StepModel::Factor {
            state: LobpcgModel {
                stage: Stage::InitialBasis,
                iteration: 0,
                active: Seq::empty(),
                x,
                ax: Seq::empty(),
                bx,
                r: Seq::empty(),
                ar: Seq::empty(),
                br: Seq::empty(),
                p: Seq::empty(),
                ap: Seq::empty(),
                bp: Seq::empty(),
                lambda: Seq::empty(),
                res_norms: Seq::empty(),
            },
            matrix: widened_all(gram(x, bx, all, all)),
            size: k,
        }
    }

    /// The initial block is orthonormalised, and the Rayleigh–Ritz pairs on it are wanted.
    pub open spec fn after_initial_basis<Op: LinearOperator<T>>(
        self,
        a: Op,
        m: LobpcgModel<T>,
        u: Option<Seq<T::Wide>>,
    ) -> StepModel<T> {
        let (k, n) = (m.x.len(), a.rows());
        let all = first_indices(k);
        match u {
            None => StepModel::Broken {
                detail: "LOBPCG: bad initial vectors — XᵀBX not SPD (linearly dependent block)"@,
            },
            Some(u) => {
                let x = combined(m.x, all, narrowed_all::<T>(u), k, n);
                let bx = combined(m.bx, all, narrowed_all::<T>(u), k, n);
                let ax = Seq::new(k, |j: int| a.image(x[j]));
                StepModel::Pencil {
                    state: LobpcgModel { stage: Stage::InitialRitz, x, ax, bx, ..m },
                    a: widened_all(mirrored(gram(x, ax, all, all), k)),
                    b: widened_all(mirrored(gram(x, bx, all, all), k)),
                    size: k,
                }
            },
        }
    }

    /// The initial block is rotated to its Ritz vectors, and the first iteration begins.
    pub open spec fn after_initial_ritz(
        self,
        params: EigenParams<T>,
        n: nat,
        m: LobpcgModel<T>,
        reply: ReplyModel<T::Wide>,
    ) -> StepModel<T> {
        let k = m.x.len();
        let all = first_indices(k);
        match reply {
            ReplyModel::Pairs { values, vectors } => {
                let lambda = ascending_values::<T>(values);
                let coords = transposed(ascending_vectors::<T>(values, vectors), k);
                let x = combined(m.x, all, coords, k, n);
                let ax = combined(m.ax, all, coords, k, n);
                let bx = combined(m.bx, all, coords, k, n);
                let r = Seq::new(k, |j: int| residual(bx[j], ax[j], lambda[j]));
                self.iterated(
                    params,
                    n,
                    LobpcgModel {
                        x,
                        ax,
                        bx,
                        r,
                        p: zero_block(k, n),
                        ap: zero_block(k, n),
                        bp: zero_block(k, n),
                        lambda,
                        res_norms: Seq::new(k, |j: int| euclidean(r[j])),
                        ..m
                    },
                    1,
                )
            },
            _ => StepModel::Broken {
                detail: "LOBPCG: initial Rayleigh–Ritz GEVP failed (bad problem)"@,
            },
        }
    }

    /// The beginning of iteration `it`: the run ends where no column is active or the limit
    /// is exceeded; else the active residuals are preconditioned, and the factor that
    /// orthonormalises them is wanted.
    pub open spec fn iterated(
        self,
        params: EigenParams<T>,
        n: nat,
        m: LobpcgModel<T>,
        it: nat,
    ) -> StepModel<T> {
        let k = m.x.len();
        let active = unconverged_columns(m.lambda, m.res_norms, Self::tolerance(params), k);
        if it > params.max_iter {
            StepModel::Exhausted {
                residual: wide_or(largest(m.res_norms, k), T::Wide::unbounded()),
            }
        } else if active.len() == 0 {
            StepModel::Converged { state: LobpcgModel { iteration: it, active, ..m } }
        } else {
            let s = active.len();
            let r = scattered(m.r, active, mapped(m.r, active, |v: Seq<T>| self.corrected(v)), s);
            let br = scattered(
                zero_block(k, n),
                active,
                mapped(r, active, |v: Seq<T>| self.b_image(v)),
                s,
            );
            StepModel::Factor {
                state: LobpcgModel {
                    stage: Stage::ResidualBasis,
                    iteration: it,
                    active,
                    r,
                    br,
                    ..m
                },
                matrix: widened_all(gram(r, br, active, active)),
                size: s,
            }
        }
    }

    /// The active residuals are orthonormalised; from the second iteration on the factor that
    /// orthonormalises the directions is wanted next, in the first the eigenpairs.
    pub open spec fn after_residual_basis<Op: LinearOperator<T>>(
        self,
        a: Op,
        m: LobpcgModel<T>,
        u: Option<Seq<T::Wide>>,
    ) -> StepModel<T> {
        let (k, n, s) = (m.x.len(), a.rows(), m.active.len());
        match u {
            None => StepModel::Broken {
                detail: "LOBPCG: orthonormalisation of residuals failed (DPOTRF)"@,
            },
            Some(u) => {
                let factor = narrowed_all::<T>(u);
                let r = scattered(m.r, m.active, combined(m.r, m.active, factor, s, n), s);
                let br = scattered(m.br, m.active, combined(m.br, m.active, factor, s, n), s);
                let ar = scattered(
                    zero_block(k, n),
                    m.active,
                    mapped(r, m.active, |v: Seq<T>| a.image(v)),
                    s,
                );
                let next = LobpcgModel { r, br, ar, ..m };
                if m.iteration > 1 {
                    StepModel::Factor {
                        state: LobpcgModel { stage: Stage::DirectionBasis, ..next },
                        matrix: widened_all(gram(m.p, m.bp, m.active, m.active)),
                        size: s,
                    }
                } else {
                    next.asks_for_pairs(0)
                }
            },
        }
    }

    /// The active directions are orthonormalised; where that is not possible they are left
    /// out of the search space.
    pub open spec fn after_direction_basis(
        self,
        n: nat,
        m: LobpcgModel<T>,
        u: Option<Seq<T::Wide>>,
    ) -> StepModel<T> {
        let s = m.active.len();
        match u {
            None => m.asks_for_pairs(0),
            Some(u) => {
                let factor = narrowed_all::<T>(u);
                let p = scattered(m.p, m.active, combined(m.p, m.active, factor, s, n), s);
                let ap = scattered(m.ap, m.active, combined(m.ap, m.active, factor, s, n), s);
                let bp = scattered(m.bp, m.active, combined(m.bp, m.active, factor, s, n), s);
                LobpcgModel { p, ap, bp, ..m }.asks_for_pairs(s as usize)
            },
        }
    }

    /// The iterates move to the Ritz vectors, and the next iteration begins.
    pub open spec fn after_ritz(
        self,
        params: EigenParams<T>,
        n: nat,
        m: LobpcgModel<T>,
        directions: nat,
        reply: ReplyModel<T::Wide>,
    ) -> StepModel<T> {
        match reply {
            ReplyModel::Pairs { values, vectors } => {
                let k = m.x.len();
                self.iterated(
                    params,
                    n,
                    m.moved(
                        directions,
                        kept_values(ascending_values::<T>(values), k, params.which),
                        kept_coords(
                            ascending_vectors::<T>(values, vectors),
                            values.len(),
                            k,
                            params.which,
                        ),
                        n,
                    ),
                    m.iteration + 1,
                )
            },
            ReplyModel::SingularFactor => StepModel::Broken {
                detail: "LOBPCG: GEVP Cholesky factor singular (dsygv failure)"@,
            },
            _ => StepModel::Broken {
                detail: "LOBPCG: GEVP B-matrix not positive definite (dsygv failure)"@,
            },
        }
    }

    /// What a waiting run does with the reply to its request.
    pub open spec fn resumed<Op: LinearOperator<T>>(
        self,
        a: Op,
        params: EigenParams<T>,
        m: LobpcgModel<T>,
        reply: ReplyModel<T::Wide>,
    ) -> StepModel<T> {
        let n = a.rows();
        let u = match reply {
            ReplyModel::Factor(u) => u,
            _ => None,
        };
        match m.stage {
            Stage::InitialBasis => self.after_initial_basis(a, m, u),
            Stage::InitialRitz => self.after_initial_ritz(params, n, m, reply),
            Stage::ResidualBasis => self.after_residual_basis(a, m, u),
            Stage::DirectionBasis => self.after_direction_basis(n, m, u),
            Stage::Ritz { directions } => self.after_ritz(params, n, m, directions as nat, reply),
        }
    }
}

/// The step is the one that the model describes.
pub open spec fn realises<T: Scalar>(
    step: Step<T>,
    model: StepModel<T>,
    params: EigenParams<T>,
) -> bool {
    match model {
        StepModel::Factor { state, matrix, size } => {
            &&& step matches Step::Continue { state: s, request: Request::Factor { matrix: g, size: h } }
            &&& s.model() == state
            &&& g@ == matrix
            &&& h == size
        },
        StepModel::Pencil { state, a, b, size } => {
            &&& step matches Step::Continue {
                state: s,
                request: Request::Pencil { a: ga, b: gb, size: h },
            }
            &&& s.model() == state
            &&& ga@ == a
            &&& gb@ == b
            &&& h == size
        },
        StepModel::Converged { state } => {
            let order = result_order(state.lambda, params.which);
            &&& step matches Step::Done(Ok(result))
            &&& lists_each_once(order, state.x.len())
            &&& ordered_by(result.eigenvalues@, params.which)
            &&& result.eigenvalues@ == gather(state.lambda, order)
            &&& columns(result.eigenvectors@) == gather(state.x, order)
            &&& result.residuals@ == gather(state.res_norms, order)
            &&& result.converged == state.x.len()
            &&& result.iterations == state.iteration
        },
        StepModel::Broken { detail } => step matches Step::Done(Err(e)) && is_breakdown(e, detail),
        StepModel::Exhausted { residual } => step == Step::<T>::Done(
            Err(SolverError::ConvergenceFailed { max_iter: params.max_iter, residual }),
        ),
    }
}


/// A block of `k` zero columns of length `n`.
fn zero_columns<T: Field>(k: usize, n: usize) -> (block: Vec<DenseVec<T>>)
    ensures
        columns(block@) == zero_block::<T>(k as nat, n as nat),
        block@.len() == k,
{
    let mut block: Vec<DenseVec<T>> = Vec::new();
    let mut j: usize = 0;
    while j < k
        invariant
            j <= k,
            block@.len() == j,
            forall|c: int| 0 <= c < j ==> (#[trigger] block@[c])@ == zero_vector::<T>(n as nat),
        decreases k - j,
    {
        block.push(DenseVec::zeros(n));
        j = j + 1;
    }
    assert(columns(block@) =~= zero_block::<T>(k as nat, n as nat));
    block
}

/// The image of `x` under `a`.
fn image_of<T: Field, Op: LinearOperator<T>>(a: &Op, x: &DenseVec<T>) -> (y: DenseVec<T>)
    requires
        x@.len() == a.cols(),
    ensures
        y@ == a.image(x@),
        y@.len() == a.rows(),
{
    let mut y = DenseVec::zeros(a.nrows());
    a.apply(x, &mut y);
    y
}

/// The images of the listed columns under `a`.
fn images_of<T: Field, Op: LinearOperator<T>>(
    a: &Op,
    block: &Vec<DenseVec<T>>,
    rows: &Vec<usize>,
) -> (out: Vec<DenseVec<T>>)
    requires
        all_below(rows@, block@.len()),
        all_of_length(columns(block@), a.cols()),
    ensures
        out@.len() == rows@.len(),
        columns(out@) == mapped(columns(block@), rows@, |v: Seq<T>| a.image(v)),
        all_of_length(columns(out@), a.rows()),
{
    let mut out: Vec<DenseVec<T>> = Vec::new();
    let ghost want = mapped(columns(block@), rows@, |v: Seq<T>| a.image(v));
    let mut i: usize = 0;
    while i < rows.len()
        invariant
            i <= rows@.len(),
            all_below(rows@, block@.len()),
            all_of_length(columns(block@), a.cols()),
            want == mapped(columns(block@), rows@, |v: Seq<T>| a.image(v)),
            out@.len() == i,
            forall|c: int|
                0 <= c < i ==> (#[trigger] out@[c])@ == want[c] && out@[c]@.len() == a.rows(),
        decreases rows@.len() - i,
    {
        assert(columns(block@)[rows@[i as int] as int].len() == a.cols());
        out.push(image_of(a, &block[rows[i]]));
        i = i + 1;
    }
    assert(columns(out@) =~= want);
    out
}

/// The columns at the listed positions.
fn pick_columns<T: Field>(block: &Vec<DenseVec<T>>, order: &Vec<usize>) -> (out: Vec<DenseVec<T>>)
    requires
        all_below(order@, block@.len()),
    ensures
        columns(out@) == gather(columns(block@), order@),
{
    let mut out: Vec<DenseVec<T>> = Vec::new();
    let mut i: usize = 0;
    while i < order.len()
        invariant
            i <= order@.len(),
            all_below(order@, block@.len()),
            out@.len() == i,
            forall|c: int|
                0 <= c < i ==> (#[trigger] out@[c])@ == gather(columns(block@), order@)[c],
        decreases order@.len() - i,
    {
        out.push(block[order[i]].duplicate());
        i = i + 1;
    }
    assert(columns(out@) =~= gather(columns(block@), order@));
    out
}

/// The numbers at the listed positions.
fn pick<T: Copy>(items: &Vec<T>, order: &Vec<usize>) -> (out: Vec<T>)
    requires
        all_below(order@, items@.len()),
    ensures
        out@ == gather(items@, order@),
{
    let mut out: Vec<T> = Vec::new();
    let mut i: usize = 0;
    while i < order.len()
        invariant
            i <= order@.len(),
            all_below(order@, items@.len()),
            out@ == gather(items@, order@).take(i as int),
        decreases order@.len() - i,
    {
        out.push(items[order[i]]);
        i = i + 1;
        assert(out@ =~= gather(items@, order@).take(i as int));
    }
    assert(out@ =~= gather(items@, order@));
    out
}

/// The largest residual norm, at least zero.
pub fn max_residual<T: Real>(res_norms: &Vec<T>) -> (r: T)
    ensures
        r == largest(res_norms@, res_norms@.len()),
{
    let mut m = T::zero();
    let mut j: usize = 0;
    while j < res_norms.len()
        invariant
            j <= res_norms@.len(),
            m == largest(res_norms@, j as nat),
        decreases res_norms@.len() - j,
    {
        if m.lt(res_norms[j]) {
            m = res_norms[j];
        }
        j = j + 1;
    }
    m
}

/// Sorted numbers stand in order.
pub proof fn lemma_sorted_values<T: Real>(keys: Seq<T>, descending: bool, order: Seq<usize>)
    requires
        totally_ordered(keys),
        sorts(keys, descending, order),
    ensures
        forall|i: int, j: int|
            0 <= i < j < keys.len() ==> if descending {
                !keys[order[i] as int].less(keys[order[j] as int])
            } else {
                !keys[order[j] as int].less(keys[order[i] as int])
            },
{
    assert forall|i: int, j: int| 0 <= i < j < keys.len() implies if descending {
        !keys[order[i] as int].less(keys[order[j] as int])
    } else {
        !keys[order[j] as int].less(keys[order[i] as int])
    } by {
        let (p, q) = (order[i] as int, order[j] as int);
        assert(stands_before(keys, descending, p, q));
        if keys[p].less(keys[q]) && keys[q].less(keys[p]) {
            assert(keys[p].less(keys[p]));
        }
    }
}

/// The order in which the pairs are returned.
fn order_of<T: Scalar>(lambda: &Vec<T>, which: EigenWhich) -> (order: Vec<usize>)
    requires
        sortable(lambda@),
    ensures
        order@ == result_order(lambda@, which),
        lists_each_once(order@, lambda@.len()),
        ordered_by(gather(lambda@, order@), which),
{
    match which {
        EigenWhich::SmallestAlgebraic | EigenWhich::SmallestMagnitude => {
            let order = sort_indices(lambda, false);
            proof {
                lemma_sorted_values(lambda@, false, order@);
            }
            order
        },
        EigenWhich::LargestAlgebraic => {
            let order = sort_indices(lambda, true);
            proof {
                lemma_sorted_values(lambda@, true, order@);
            }
            order
        },
        EigenWhich::LargestMagnitude => {
            let mut keys: Vec<T::Wide> = Vec::new();
            let mut j: usize = 0;
            while j < lambda.len()
                invariant
                    j <= lambda@.len(),
                    keys@ == magnitudes(lambda@).take(j as int),
                decreases lambda@.len() - j,
            {
                keys.push(widen(lambda[j], T::Wide::zero()).abs());
                j = j + 1;
                assert(keys@ =~= magnitudes(lambda@).take(j as int));
            }
            assert(keys@ =~= magnitudes(lambda@));
            let order = sort_indices(&keys, true);
            proof {
                lemma_sorted_values(keys@, true, order@);
                assert(magnitudes(gather(lambda@, order@)) =~= gather(keys@, order@));
            }
            order
        },
        EigenWhich::BothEnds => {
            let ascending = sort_indices(lambda, false);
            let k = lambda.len();
            let half = k / 2;
            let ghost want = result_order(lambda@, which);
            let mut order: Vec<usize> = Vec::new();
            let mut j: usize = 0;
            while j < k
                invariant
                    j <= k,
                    k == lambda@.len(),
                    half == k / 2,
                    which == EigenWhich::BothEnds,
                    ascending@ == sorting(lambda@, false),
                    sorts(lambda@, false, ascending@),
                    want == result_order(lambda@, which),
                    order@.len() == j,
                    forall|c: int| 0 <= c < j ==> (#[trigger] order@[c]) == want[c] && order@[c] < k,
                    forall|c: int|
                        0 <= c < j ==> (#[trigger] order@[c]) == ascending@[if c < half {
                            c
                        } else {
                            k - 1 - (c - half)
                        }],
                decreases k - j,
            {
                let at = if j < half {
                    j
                } else {
                    k - 1 - (j - half)
                };
                order.push(ascending[at]);
                j = j + 1;
            }
            assert(order@ =~= want);
            proof {
                lemma_sorted_values(lambda@, false, ascending@);
                let values = gather(lambda@, order@);
                assert forall|i: int, j: int| 0 <= i < half && i < j < k implies !(
                #[trigger] values[j].less(values[i])) by {
                    let at = if j < half {
                        j
                    } else {
                        k - 1 - (j - half)
                    };
                    assert(order@[i] == ascending@[i] && order@[j] == ascending@[at]);
                    assert(i < at < k);
                }
                assert forall|i: int, j: int| half <= i < j < k implies !(
                #[trigger] values[i].less(values[j])) by {
                    assert(order@[i] == ascending@[k - 1 - (i - half)]);
                    assert(order@[j] == ascending@[k - 1 - (j - half)]);
                }
            }
            order
        },
    }
}

impl<'p, T: Scalar> Lobpcg<'p, T> {
    /// `B·x`.
    fn apply_b(&self, x: &DenseVec<T>) -> (y: DenseVec<T>)
        requires
            self.acts_on(x@.len()),
        ensures
            y@ == self.b_image(x@),
            y@.len() == x@.len(),
    {
        match self.b_op {
            Some(b) => {
                let mut y = DenseVec::zeros(x.len());
                b.apply(x, &mut y);
                y
            },
            None => x.duplicate(),
        }
    }

    /// The projection of `x`.
    fn project(&self, x: DenseVec<T>) -> (y: DenseVec<T>)
        ensures
            y@ == self.projected(x@),
            y@.len() == x@.len(),
    {
        match self.projector {
            Some(q) => {
                let mut y = DenseVec::zeros(x.len());
                q.apply_precond(&x, &mut y);
                y
            },
            None => x,
        }
    }

    /// The preconditioned and then projected `r`.
    fn apply_t(&self, r: &DenseVec<T>) -> (y: DenseVec<T>)
        ensures
            y@ == self.corrected(r@),
            y@.len() == r@.len(),
    {
        let w = match self.precond {
            Some(m) => {
                let mut w = DenseVec::zeros(r.len());
                m.apply_precond(r, &mut w);
                w
            },
            None => r.duplicate(),
        };
        self.project(w)
    }

    /// `x` with the eliminated entries set to zero.
    fn eliminate(&self, x: DenseVec<T>) -> (y: DenseVec<T>)
        ensures
            y@ == self.eliminated(x@),
    {
        let mut y = x;
        match self.zero_dofs {
            None => {},
            Some(dofs) => {
                let ghost before = y@;
                let mut i: usize = 0;
                while i < dofs.len()
                    invariant
                        i <= dofs@.len(),
                        y@.len() == before.len(),
                        forall|m: int|
                            0 <= m < y@.len() ==> (#[trigger] y@[m]) == (if exists|t: int|
                                0 <= t < i && (#[trigger] dofs@[t]) == m {
                                T::nought()
                            } else {
                                before[m]
                            }),
                    decreases dofs@.len() - i,
                {
                    let d = dofs[i];
                    let ghost current = y@;
                    if d < y.len() {
                        y.data.set(d, T::zero());
                    }
                    proof {
                        assert forall|m: int| 0 <= m < y@.len() implies (#[trigger] y@[m]) == (
                        if exists|t: int| 0 <= t < i + 1 && (#[trigger] dofs@[t]) == m {
                            T::nought()
                        } else {
                            before[m]
                        }) by {
                            assert(current[m] == current[m]);
                            if m == d {
                                assert(dofs@[i as int] == m);
                            } else if exists|t: int| 0 <= t < i + 1 && (#[trigger] dofs@[t]) == m {
                                let t = choose|t: int| 0 <= t < i + 1 && (#[trigger] dofs@[t]) == m;
                                assert(t < i);
                            }
                        }
                    }
                    i = i + 1;
                }
                proof {
                    assert forall|m: int| 0 <= m < y@.len() implies (#[trigger] y@[m])
                        == self.eliminated(before)[m] by {
                        assert(m < y.data.len());
                        if dofs@.contains(m as usize) {
                            let t = choose|t: int| 0 <= t < dofs@.len() && dofs@[t] == m as usize;
                            assert(dofs@[t] == m);
                        }
                    }
                    assert(y@ =~= self.eliminated(before));
                }
            },
        }
        y
    }
}


/// The request is of the kind and size that the run waits for.
pub open spec fn asks<T: Scalar>(m: LobpcgModel<T>, request: Request<T::Wide>) -> bool {
    match request {
        Request::Factor { matrix, size } => {
            &&& m.stage is InitialBasis || m.stage is ResidualBasis || m.stage is DirectionBasis
            &&& size == m.request_size()
            &&& matrix@.len() == size * size
        },
        Request::Pencil { a, b, size } => {
            &&& m.stage is InitialRitz || m.stage is Ritz
            &&& size == m.request_size()
            &&& a@.len() == size * size
            &&& b@.len() == size * size
        },
    }
}

/// A waiting run has all it needs to be resumed, and asks for what it waits for.
pub open spec fn stays_wf<T: Scalar>(step: Step<T>, k: nat, n: nat) -> bool {
    step matches Step::Continue { state, request } ==> state.model().wf(k, n) && asks(
        state.model(),
        request,
    )
}

impl<T: Scalar> LobpcgModel<T> {
    /// The blocks with which an iteration begins are there.
    pub open spec fn settled(self, k: nat, n: nat) -> bool {
        &&& is_block(self.x, k, n)
        &&& is_block(self.ax, k, n)
        &&& is_block(self.bx, k, n)
        &&& is_block(self.r, k, n)
        &&& is_block(self.p, k, n)
        &&& is_block(self.ap, k, n)
        &&& is_block(self.bp, k, n)
        &&& self.lambda.len() == k
        &&& self.res_norms.len() == k
        &&& sortable(self.lambda)
    }
}

/// Replacing columns keeps a block a block.
proof fn lemma_scattered_block<T>(
    block: Seq<Seq<T>>,
    rows: Seq<usize>,
    new: Seq<Seq<T>>,
    m: nat,
    k: nat,
    n: nat,
)
    requires
        is_block(block, k, n),
        all_below(rows, k),
        m <= rows.len(),
        new.len() >= m,
        all_of_length(new, n),
    ensures
        is_block(scattered(block, rows, new, m), k, n),
    decreases m,
{
    if m > 0 {
        lemma_scattered_block(block, rows, new, (m - 1) as nat, k, n);
    }
}

impl<'p, T: Scalar> Lobpcg<'p, T> {
    /// The columns that have not converged, ascending.
    fn active_columns(&self, params: &EigenParams<T>, lambda: &Vec<T>, res_norms: &Vec<T>) -> (act:
        Vec<usize>)
        requires
            lambda@.len() == res_norms@.len(),
        ensures
            act@ == unconverged_columns(
                lambda@,
                res_norms@,
                Self::tolerance(*params),
                lambda@.len(),
            ),
            act@.len() <= lambda@.len(),
            all_below(act@, lambda@.len()),
    {
        let tol = widen(params.tol, T::Wide::decimal(1, -10));
        let mut act: Vec<usize> = Vec::new();
        let mut j: usize = 0;
        while j < lambda.len()
            invariant
                j <= lambda@.len(),
                lambda@.len() == res_norms@.len(),
                tol == Self::tolerance(*params),
                act@ == unconverged_columns(lambda@, res_norms@, tol, j as nat),
                act@.len() <= j,
                all_below(act@, j as nat),
            decreases lambda@.len() - j,
        {
            let res = widen(res_norms[j], T::Wide::infinity());
            let size = widen(lambda[j], T::Wide::zero()).abs();
            if size.mul(tol).add(tol).add(T::Wide::epsilon()).lt(res) {
                act.push(j);
            }
            j = j + 1;
        }
        act
    }

    /// Begins iteration `it`.
    fn iterate(
        &self,
        params: &EigenParams<T>,
        n: usize,
        state: LobpcgState<T>,
        it: usize,
    ) -> (step: Step<T>)
        requires
            1 <= it <= params.max_iter,
            self.acts_on(n as nat),
            state.x@.len() >= 1,
            state.x@.len() * state.x@.len() <= usize::MAX,
            state.model().settled(state.x@.len(), n as nat),
        ensures
            realises(
                step,
                self.iterated(*params, n as nat, state.model(), it as nat),
                *params,
            ),
            stays_wf(step, state.x@.len(), n as nat),
    {
        let k = state.x.len();
        let ghost m = state.model();
        let active = self.active_columns(params, &state.lambda, &state.res_norms);
        if active.len() == 0 {
            let order = order_of(&state.lambda, params.which);
            return Step::Done(
                Ok(
                    EigenResult {
                        eigenvalues: pick(&state.lambda, &order),
                        eigenvectors: pick_columns(&state.x, &order),
                        converged: k,
                        iterations: it,
                        residuals: pick(&state.res_norms, &order),
                    },
                ),
            );
        }
        let mut s = state;
        let mut new_r: Vec<DenseVec<T>> = Vec::new();
        let ghost want_r = mapped(m.r, active@, |v: Seq<T>| self.corrected(v));
        let mut i: usize = 0;
        while i < active.len()
            invariant
                i <= active@.len(),
                all_below(active@, s.r@.len()),
                all_of_length(columns(s.r@), n as nat),
                columns(s.r@) == m.r,
                want_r == mapped(m.r, active@, |v: Seq<T>| self.corrected(v)),
                new_r@.len() == i,
                forall|c: int|
                    0 <= c < i ==> (#[trigger] new_r@[c])@ == want_r[c] && new_r@[c]@.len() == n,
            decreases active@.len() - i,
        {
            assert(columns(s.r@)[active@[i as int] as int].len() == n);
            new_r.push(self.apply_t(&s.r[active[i]]));
            i = i + 1;
        }
        assert(columns(new_r@) =~= want_r);
        scatter(&mut s.r, &active, new_r);
        let ghost r = columns(s.r@);
        proof {
            lemma_scattered_block(m.r, active@, want_r, active@.len(), k as nat, n as nat);
        }

        let mut new_br: Vec<DenseVec<T>> = Vec::new();
        let ghost want_br = mapped(r, active@, |v: Seq<T>| self.b_image(v));
        let mut i: usize = 0;
        while i < active.len()
            invariant
                i <= active@.len(),
                self.acts_on(n as nat),
                all_below(active@, s.r@.len()),
                all_of_length(columns(s.r@), n as nat),
                columns(s.r@) == r,
                want_br == mapped(r, active@, |v: Seq<T>| self.b_image(v)),
                new_br@.len() == i,
                forall|c: int|
                    0 <= c < i ==> (#[trigger] new_br@[c])@ == want_br[c] && new_br@[c]@.len() == n,
            decreases active@.len() - i,
        {
            assert(columns(s.r@)[active@[i as int] as int].len() == n);
            new_br.push(self.apply_b(&s.r[active[i]]));
            i = i + 1;
        }
        assert(columns(new_br@) =~= want_br);
        s.br = zero_columns(k, n);
        scatter(&mut s.br, &active, new_br);
        proof {
            lemma_scattered_block(
                zero_block::<T>(k as nat, n as nat),
                active@,
                want_br,
                active@.len(),
                k as nat,
                n as nat,
            );
            assert(active@.len() * active@.len() <= k * k) by (nonlinear_arith)
                requires
                    active@.len() <= k,
            ;
            assert forall|i: int, j: int| 0 <= i < s.r@.len() && 0 <= j < s.br@.len() implies (
            #[trigger] s.r@[i]@).len() == (#[trigger] s.br@[j]@).len() by {
                assert(columns(s.r@)[i].len() == n);
                assert(columns(s.br@)[j].len() == n);
            }
        }
        let matrix = gram_sub(&s.r, &s.br, &active, &active);
        let size = active.len();
        s.stage = Stage::ResidualBasis;
        s.iteration = it;
        s.active = active;
        Step::Continue { state: s, request: Request::Factor { matrix: widen_all(&matrix), size } }
    }
}


/// Two blocks of columns of the same length can be multiplied.
proof fn lemma_compatible<T>(x: Seq<DenseVec<T>>, y: Seq<DenseVec<T>>, n: nat)
    requires
        all_of_length(columns(x), n),
        all_of_length(columns(y), n),
    ensures
        forall|i: int, j: int|
            0 <= i < x.len() && 0 <= j < y.len() ==> (#[trigger] x[i]@).len() == (
            #[trigger] y[j]@).len(),
{
    assert forall|i: int, j: int| 0 <= i < x.len() && 0 <= j < y.len() implies (
    #[trigger] x[i]@).len() == (#[trigger] y[j]@).len() by {
        assert(columns(x)[i].len() == n);
        assert(columns(y)[j].len() == n);
    }
}

/// Sorting the eigenvalues of a reply keeps them sortable after the conversion.
proof fn lemma_ascending_sortable<T: Scalar>(values: Seq<T::Wide>)
    requires
        sortable(narrowed_all::<T>(values)),
        sorts(values, false, sorting(values, false)),
    ensures
        sortable(ascending_values::<T>(values)),
        ascending_values::<T>(values).len() == values.len(),
{
    let order = sorting(values, false);
    let plain = narrowed_all::<T>(values);
    lemma_gathered_stay_ordered(plain, order);
    lemma_gathered_stay_ordered(magnitudes(plain), order);
    assert(gather(plain, order) =~= ascending_values::<T>(values));
    assert(gather(magnitudes(plain), order) =~= magnitudes(ascending_values::<T>(values)));
}

/// Some of the sortable numbers are sortable.
proof fn lemma_kept_sortable<T: Scalar>(lambda: Seq<T>, from: nat, k: nat)
    requires
        sortable(lambda),
        from + k <= lambda.len() <= usize::MAX,
    ensures
        sortable(lambda.subrange(from as int, (from + k) as int)),
{
    let order = Seq::new(k, |i: int| (from + i) as usize);
    let kept = lambda.subrange(from as int, (from + k) as int);
    lemma_gathered_stay_ordered(lambda, order);
    lemma_gathered_stay_ordered(magnitudes(lambda), order);
    assert(gather(lambda, order) =~= kept);
    assert(gather(magnitudes(lambda), order) =~= magnitudes(kept));
}

/// The entries from position `from` up to `to`.
fn portion<T: Copy>(items: &Vec<T>, from: usize, to: usize) -> (out: Vec<T>)
    requires
        from <= to <= items@.len(),
    ensures
        out@ == items@.subrange(from as int, to as int),
{
    let mut out: Vec<T> = Vec::new();
    let mut i: usize = from;
    while i < to
        invariant
            from <= i <= to <= items@.len(),
            out@ == items@.subrange(from as int, i as int),
        decreases to - i,
    {
        out.push(items[i]);
        i = i + 1;
        assert(out@ =~= items@.subrange(from as int, i as int));
    }
    out
}

impl<'p, T: Scalar> Default for Lobpcg<'p, T> {
    fn default() -> (s: Self)
        ensures
            s == (Lobpcg::<'p, T> {
                precond: None,
                b_op: None,
                projector: None,
                zero_dofs: None,
                seed: 42,
            }),
    {
        Lobpcg { precond: None, b_op: None, projector: None, zero_dofs: None, seed: 42 }
    }
}

impl<'p, T: Scalar> Lobpcg<'p, T> {
    /// A solver for the standard problem `A x = λ x`.
    pub fn new(precond: Option<&'p dyn Preconditioner<T>>) -> (s: Self)
        ensures
            s == (Lobpcg { precond, b_op: None, projector: None, zero_dofs: None, seed: 42 }),
    {
        Lobpcg { precond, b_op: None, projector: None, zero_dofs: None, seed: 42 }
    }

    /// A solver for the generalised problem `A x = λ B x`, with an optional projection.
    pub fn new_generalized(
        precond: Option<&'p dyn Preconditioner<T>>,
        b_op: Option<&'p dyn LinearOperator<T>>,
        projector: Option<&'p dyn Preconditioner<T>>,
    ) -> (s: Self)
        ensures
            s == (Lobpcg { precond, b_op, projector, zero_dofs: None, seed: 42 }),
    {
        Lobpcg { precond, b_op, projector, zero_dofs: None, seed: 42 }
    }

    /// The same solver with the given entries set to zero in the initial block.
    pub fn with_zero_dofs(self, dofs: &'p [usize]) -> (s: Self)
        ensures
            s == (Lobpcg { zero_dofs: Some(dofs), ..self }),
    {
        Lobpcg {
            precond: self.precond,
            b_op: self.b_op,
            projector: self.projector,
            zero_dofs: Some(dofs),
            seed: self.seed,
        }
    }

    /// The seed of the random numbers in column `j` of the initial block.
    pub fn column_seed(&self, j: usize) -> (r: u64)
        requires
            j * 0xdeadbeef <= u64::MAX,
        ensures
            r == self.seed_of(j as int),
    {
        self.seed.wrapping_add(j as u64 * 0xdeadbeef)
    }

    /// Starts to solve `A x = λ B x`, or `A x = λ x` without `B`, from an initial block of
    /// random columns.
    pub fn solve_generalized<Op: LinearOperator<T>>(
        &self,
        a: &Op,
        params: &EigenParams<T>,
        initial: Vec<DenseVec<T>>,
    ) -> (step: Step<T>)
        requires
            a.rows() == a.cols(),
            1 <= params.n_eigenvalues < a.rows(),
            9 * params.n_eigenvalues * params.n_eigenvalues <= usize::MAX,
            self.acts_on(a.rows()),
            is_block(columns(initial@), params.n_eigenvalues as nat, a.rows()),
        ensures
            realises(step, self.started(columns(initial@)), *params),
            stays_wf(step, params.n_eigenvalues as nat, a.rows()),
            step is Continue,
    {
        let k = params.n_eigenvalues;
        let ghost n = a.rows();
        let ghost given = columns(initial@);
        let ghost want_x = Seq::new(k as nat, |j: int| self.projected(self.eliminated(given[j])));
        let ghost want_bx = Seq::new(k as nat, |j: int| self.b_image(want_x[j]));
        let mut x: Vec<DenseVec<T>> = Vec::new();
        let mut bx: Vec<DenseVec<T>> = Vec::new();
        let mut j: usize = 0;
        while j < k
            invariant
                j <= k,
                k == initial@.len(),
                self.acts_on(n),
                given == columns(initial@),
                all_of_length(given, n),
                want_x == Seq::new(
                    k as nat,
                    |j: int| self.projected(self.eliminated(given[j])),
                ),
                want_bx == Seq::new(k as nat, |j: int| self.b_image(want_x[j])),
                x@.len() == j,
                bx@.len() == j,
                forall|c: int| 0 <= c < j ==> (#[trigger] x@[c])@ == want_x[c] && x@[c]@.len() == n,
                forall|c: int|
                    0 <= c < j ==> (#[trigger] bx@[c])@ == want_bx[c] && bx@[c]@.len() == n,
            decreases k - j,
        {
            assert(given[j as int].len() == n);
            let column = self.project(self.eliminate(initial[j].duplicate()));
            bx.push(self.apply_b(&column));
            x.push(column);
            j = j + 1;
        }
        assert(columns(x@) =~= want_x);
        assert(columns(bx@) =~= want_bx);
        assert(k * k <= 9 * k * k) by (nonlinear_arith);
        proof {
            lemma_compatible(x@, bx@, n);
        }
        let all = index_range(k);
        let matrix = gram_sub(&x, &bx, &all, &all);
        let state = LobpcgState {
            stage: Stage::InitialBasis,
            iteration: 0,
            active: Vec::new(),
            x,
            ax: Vec::new(),
            bx,
            r: Vec::new(),
            ar: Vec::new(),
            br: Vec::new(),
            p: Vec::new(),
            ap: Vec::new(),
            bp: Vec::new(),
            lambda: Vec::new(),
            res_norms: Vec::new(),
        };
        proof {
            let none = Seq::<Seq<T>>::empty();
            assert(columns(state.ax@) =~= none);
            assert(columns(state.r@) =~= none);
            assert(columns(state.ar@) =~= none);
            assert(columns(state.br@) =~= none);
            assert(columns(state.p@) =~= none);
            assert(columns(state.ap@) =~= none);
            assert(columns(state.bp@) =~= none);
            assert(state.active@ =~= Seq::empty());
            assert(state.lambda@ =~= Seq::empty());
            assert(state.res_norms@ =~= Seq::empty());
        }
        Step::Continue { state, request: Request::Factor { matrix: widen_all(&matrix), size: k } }
    }

    /// Starts to solve the eigenproblem: the same as [`Lobpcg::solve_generalized`].
    pub fn solve<Op: LinearOperator<T>>(
        &self,
        op: &Op,
        params: &EigenParams<T>,
        initial: Vec<DenseVec<T>>,
    ) -> (step: Step<T>)
        requires
            op.rows() == op.cols(),
            1 <= params.n_eigenvalues < op.rows(),
            9 * params.n_eigenvalues * params.n_eigenvalues <= usize::MAX,
            self.acts_on(op.rows()),
            is_block(columns(initial@), params.n_eigenvalues as nat, op.rows()),
        ensures
            realises(step, self.started(columns(initial@)), *params),
            stays_wf(step, params.n_eigenvalues as nat, op.rows()),
            step is Continue,
    {
        self.solve_generalized(op, params, initial)
    }

    /// Goes on with an orthonormalised initial block.
    fn resume_initial_basis<Op: LinearOperator<T>>(
        &self,
        a: &Op,
        params: &EigenParams<T>,
        state: LobpcgState<T>,
        inverse: Option<Vec<T::Wide>>,
    ) -> (step: Step<T>)
        requires
            a.rows() == a.cols(),
            state.x@.len() >= 1,
            state.x@.len() * state.x@.len() <= usize::MAX,
            state.stage is InitialBasis,
            state.model().wf(state.x@.len(), a.rows()),
            inverse matches Some(u) ==> u@.len() == state.x@.len() * state.x@.len(),
        ensures
            realises(
                step,
                self.after_initial_basis(*a, state.model(), entries(inverse)),
                *params,
            ),
            stays_wf(step, state.x@.len(), a.rows()),
    {
        let k = state.x.len();
        let ghost n = a.rows();
        let ghost m = state.model();
        let all = index_range(k);
        match chol_upper_inv::<T>(&inverse) {
            None => Step::Done(
                Err(
                    breakdown(
                        "LOBPCG: bad initial vectors — XᵀBX not SPD (linearly dependent block)",
                    ),
                ),
            ),
            Some(u) => {
                let mut s = state;
                assert(columns(s.x@)[0].len() == n);
                assert(columns(s.bx@)[0].len() == n);
                s.x = vecs_combine(&s.x, &all, &u, k);
                s.bx = vecs_combine(&s.bx, &all, &u, k);
                s.ax = images_of(a, &s.x, &all);
                assert(columns(s.ax@) =~= Seq::new(k as nat, |j: int| a.image(columns(s.x@)[j])));
                proof {
                    lemma_compatible(s.x@, s.ax@, n);
                    lemma_compatible(s.x@, s.bx@, n);
                }
                let mut ga = gram_sub(&s.x, &s.ax, &all, &all);
                symmetrize(&mut ga, k);
                let mut gb = gram_sub(&s.x, &s.bx, &all, &all);
                symmetrize(&mut gb, k);
                s.stage = Stage::InitialRitz;
                Step::Continue {
                    state: s,
                    request: Request::Pencil { a: widen_all(&ga), b: widen_all(&gb), size: k },
                }
            },
        }
    }
}


/// The model of an optional matrix.
pub open spec fn entries<W>(inverse: Option<Vec<W>>) -> Option<Seq<W>> {
    match inverse {
        Some(u) => Some(u@),
        None => None,
    }
}

impl<'p, T: Scalar> Lobpcg<'p, T> {
    /// Goes on with the Rayleigh–Ritz pairs on the initial block.
    fn resume_initial_ritz(
        &self,
        params: &EigenParams<T>,
        n: usize,
        state: LobpcgState<T>,
        outcome: PencilOutcome<T::Wide>,
    ) -> (step: Step<T>)
        requires
            self.acts_on(n as nat),
            state.x@.len() >= 1,
            state.x@.len() * state.x@.len() <= usize::MAX,
            state.stage is InitialRitz,
            state.model().wf(state.x@.len(), n as nat),
            state.model().answered_by(Reply::Pencil(outcome).model()),
        ensures
            realises(
                step,
                self.after_initial_ritz(
                    *params,
                    n as nat,
                    state.model(),
                    Reply::Pencil(outcome).model(),
                ),
                *params,
            ),
            stays_wf(step, state.x@.len(), n as nat),
    {
        let k = state.x.len();
        let ghost m = state.model();
        let all = index_range(k);
        match dense_symm_eig_gen::<T>(outcome, k) {
            Err(_) => Step::Done(
                Err(breakdown("LOBPCG: initial Rayleigh–Ritz GEVP failed (bad problem)")),
            ),
            Ok(pairs) => {
                let (lambda, vectors) = pairs;
                let ghost values = outcome->values@;
                proof {
                    lemma_ascending_sortable::<T>(values);
                }
                let coords = transpose(&vectors, k);
                let mut s = state;
                assert(columns(s.x@)[0].len() == n);
                assert(columns(s.ax@)[0].len() == n);
                assert(columns(s.bx@)[0].len() == n);
                s.x = vecs_combine(&s.x, &all, &coords, k);
                s.ax = vecs_combine(&s.ax, &all, &coords, k);
                s.bx = vecs_combine(&s.bx, &all, &coords, k);
                let ghost want_r = Seq::new(
                    k as nat,
                    |j: int| residual(columns(s.bx@)[j], columns(s.ax@)[j], lambda@[j]),
                );
                let mut r: Vec<DenseVec<T>> = Vec::new();
                let mut norms: Vec<T> = Vec::new();
                let mut j: usize = 0;
                while j < k
                    invariant
                        j <= k,
                        lambda@.len() == k,
                        s.bx@.len() == k,
                        s.ax@.len() == k,
                        all_of_length(columns(s.bx@), n as nat),
                        all_of_length(columns(s.ax@), n as nat),
                        want_r == Seq::new(
                            k as nat,
                            |j: int| residual(columns(s.bx@)[j], columns(s.ax@)[j], lambda@[j]),
                        ),
                        r@.len() == j,
                        norms@.len() == j,
                        forall|c: int|
                            0 <= c < j ==> (#[trigger] r@[c])@ == want_r[c] && r@[c]@.len() == n,
                        forall|c: int| 0 <= c < j ==> (#[trigger] norms@[c]) == euclidean(want_r[c]),
                    decreases k - j,
                {
                    assert(columns(s.bx@)[j as int].len() == n);
                    assert(columns(s.ax@)[j as int].len() == n);
                    let column = residual_vec(&s.bx[j], &s.ax[j], lambda[j]);
                    norms.push(column.norm2());
                    r.push(column);
                    j = j + 1;
                }
                assert(columns(r@) =~= want_r);
                assert(norms@ =~= Seq::new(k as nat, |j: int| euclidean(want_r[j])));
                s.r = r;
                s.res_norms = norms;
                s.lambda = lambda;
                s.p = zero_columns(k, n);
                s.ap = zero_columns(k, n);
                s.bp = zero_columns(k, n);
                if params.max_iter >= 1 {
                    self.iterate(params, n, s, 1)
                } else {
                    Step::Done(
                        Err(
                            SolverError::ConvergenceFailed {
                                max_iter: params.max_iter,
                                residual: widen(
                                    max_residual(&s.res_norms),
                                    T::Wide::infinity(),
                                ),
                            },
                        ),
                    )
                }
            },
        }
    }

    /// Assembles the Gram matrices on the search space with the given number of directions.
    fn ask_for_pairs(&self, params: &EigenParams<T>, n: usize, state: LobpcgState<T>, directions: usize)
        -> (step: Step<T>)
        requires
            state.x@.len() >= 1,
            9 * state.x@.len() * state.x@.len() <= usize::MAX,
            state.stage is ResidualBasis || state.stage is DirectionBasis,
            state.model().wf(state.x@.len(), n as nat),
            is_block(columns(state.ar@), state.x@.len(), n as nat),
            directions == 0 || directions == state.active@.len(),
        ensures
            realises(step, state.model().asks_for_pairs(directions), *params),
            stays_wf(step, state.x@.len(), n as nat),
    {
        let k = state.x.len();
        let sz = state.active.len();
        let ghost m = state.model();
        assert(k + k + k <= 9 * k * k) by (nonlinear_arith)
            requires
                k >= 1,
        ;
        let size = k + sz + directions;
        let ghost lower_a = |i: int, j: int| m.gram_a(i, j);
        let ghost lower_b = |i: int, j: int| m.gram_b(i, j);
        let ghost want_a = symmetric(lower_a, size as nat);
        let ghost want_b = symmetric(lower_b, size as nat);
        assert(size * size <= 9 * k * k) by (nonlinear_arith)
            requires
                size <= 3 * k,
        ;
        let mut ga: Vec<T> = Vec::new();
        let mut gb: Vec<T> = Vec::new();
        let mut i: usize = 0;
        while i < size
            invariant
                i <= size,
                size == k + sz + directions,
                size * size <= usize::MAX,
                k == state.x@.len(),
                sz == state.active@.len(),
                m == state.model(),
                m.wf(k as nat, n as nat),
                is_block(m.ar, k as nat, n as nat),
                state.stage is ResidualBasis || state.stage is DirectionBasis,
                directions == 0 || directions == sz,
                lower_a == (|i: int, j: int| m.gram_a(i, j)),
                lower_b == (|i: int, j: int| m.gram_b(i, j)),
                want_a == symmetric(lower_a, size as nat),
                want_b == symmetric(lower_b, size as nat),
                ga@.len() == i * size,
                gb@.len() == i * size,
                forall|p: int|
                    0 <= p < i * size && p / (size as int) >= p % (size as int) ==> (
                    #[trigger] ga@[p]) == want_a[p],
                forall|p: int|
                    0 <= p < i * size && p / (size as int) >= p % (size as int) ==> (
                    #[trigger] gb@[p]) == want_b[p],
            decreases size - i,
        {
            assert(i * size + size == (i + 1) * size) by (nonlinear_arith);
            assert((i + 1) * size <= size * size) by (nonlinear_arith)
                requires
                    i + 1 <= size,
            ;
            let mut j: usize = 0;
            while j < size
                invariant
                    i < size,
                    j <= size,
                    size == k + sz + directions,
                    size * size <= usize::MAX,
                    i * size + size == (i + 1) * size,
                    (i + 1) * size <= size * size,
                    k == state.x@.len(),
                    sz == state.active@.len(),
                    m == state.model(),
                    m.wf(k as nat, n as nat),
                    is_block(m.ar, k as nat, n as nat),
                    state.stage is ResidualBasis || state.stage is DirectionBasis,
                    directions == 0 || directions == sz,
                    lower_a == (|i: int, j: int| m.gram_a(i, j)),
                    lower_b == (|i: int, j: int| m.gram_b(i, j)),
                    want_a == symmetric(lower_a, size as nat),
                    want_b == symmetric(lower_b, size as nat),
                    ga@.len() == i * size + j,
                    gb@.len() == i * size + j,
                    forall|p: int|
                        0 <= p < i * size + j && p / (size as int) >= p % (size as int) ==> (
                        #[trigger] ga@[p]) == want_a[p],
                    forall|p: int|
                        0 <= p < i * size + j && p / (size as int) >= p % (size as int) ==> (
                        #[trigger] gb@[p]) == want_b[p],
                decreases size - j,
            {
                proof {
                    lemma_position(i as int, j as int, size as int, size as int);
                }
                if j > i {
                    ga.push(T::zero());
                    gb.push(T::zero());
                } else {
                    let (va, vb) = self.gram_entries(n, &state, i, j);
                    ga.push(va);
                    gb.push(vb);
                }
                j = j + 1;
            }
            i = i + 1;
        }
        let ghost low_a = ga@;
        let ghost low_b = gb@;
        symmetrize(&mut ga, size);
        symmetrize(&mut gb, size);
        proof {
            lemma_mirrored_lower(low_a, lower_a, size as nat);
            lemma_mirrored_lower(low_b, lower_b, size as nat);
        }
        let mut s = state;
        s.stage = Stage::Ritz { directions };
        Step::Continue {
            state: s,
            request: Request::Pencil { a: widen_all(&ga), b: widen_all(&gb), size },
        }
    }

    /// Entry `(i, j)`, `i >= j`, of the two Gram matrices.
    fn gram_entries(&self, n: usize, state: &LobpcgState<T>, i: usize, j: usize) -> (r: (T, T))
        requires
            state.stage is ResidualBasis || state.stage is DirectionBasis,
            state.model().wf(state.x@.len(), n as nat),
            is_block(columns(state.ar@), state.x@.len(), n as nat),
            j <= i < state.x@.len() + 2 * state.active@.len(),
        ensures
            r.0 == state.model().gram_a(i as int, j as int),
            r.1 == state.model().gram_b(i as int, j as int),
    {
        let k = state.x.len();
        let s = state.active.len();
        if i < k {
            return if i == j {
                (state.lambda[i], T::one())
            } else {
                (T::zero(), T::zero())
            };
        }
        let ghost m = state.model();
        let row = if i - k < s {
            assert(m.r[state.active@[i - k] as int].len() == n);
            &state.r[state.active[i - k]]
        } else {
            assert(m.p[state.active@[i - k - s] as int].len() == n);
            &state.p[state.active[i - k - s]]
        };
        if j < k {
            assert(m.ax[j as int].len() == n);
            assert(m.bx[j as int].len() == n);
            (
                dot(row.as_slice(), state.ax[j].as_slice()),
                dot(row.as_slice(), state.bx[j].as_slice()),
            )
        } else {
            let col = if j - k < s {
                assert(m.ar[state.active@[j - k] as int].len() == n);
                &state.ar[state.active[j - k]]
            } else {
                assert(m.ap[state.active@[j - k - s] as int].len() == n);
                &state.ap[state.active[j - k - s]]
            };
            let product = if i - k >= s && j - k < s {
                assert(m.br[state.active@[j - k] as int].len() == n);
                dot(row.as_slice(), state.br[state.active[j - k]].as_slice())
            } else if i == j {
                T::one()
            } else {
                T::zero()
            };
            (dot(row.as_slice(), col.as_slice()), product)
        }
    }

    /// Goes on with orthonormalised residuals.
    fn resume_residual_basis<Op: LinearOperator<T>>(
        &self,
        a: &Op,
        params: &EigenParams<T>,
        state: LobpcgState<T>,
        inverse: Option<Vec<T::Wide>>,
    ) -> (step: Step<T>)
        requires
            a.rows() == a.cols(),
            state.x@.len() >= 1,
            9 * state.x@.len() * state.x@.len() <= usize::MAX,
            state.stage is ResidualBasis,
            state.model().wf(state.x@.len(), a.rows()),
            inverse matches Some(u) ==> u@.len() == state.active@.len() * state.active@.len(),
        ensures
            realises(
                step,
                self.after_residual_basis(*a, state.model(), entries(inverse)),
                *params,
            ),
            stays_wf(step, state.x@.len(), a.rows()),
    {
        let k = state.x.len();
        let n = a.nrows();
        let sz = state.active.len();
        let ghost m = state.model();
        match chol_upper_inv::<T>(&inverse) {
            None => Step::Done(
                Err(breakdown("LOBPCG: orthonormalisation of residuals failed (DPOTRF)")),
            ),
            Some(u) => {
                let mut s = state;
                assert(columns(s.r@)[0].len() == n);
                assert(columns(s.br@)[0].len() == n);
                let new_r = vecs_combine(&s.r, &s.active, &u, sz);
                let new_br = vecs_combine(&s.br, &s.active, &u, sz);
                proof {
                    lemma_scattered_block(
                        m.r,
                        m.active,
                        columns(new_r@),
                        sz as nat,
                        k as nat,
                        n as nat,
                    );
                    lemma_scattered_block(
                        m.br,
                        m.active,
                        columns(new_br@),
                        sz as nat,
                        k as nat,
                        n as nat,
                    );
                }
                scatter(&mut s.r, &s.active, new_r);
                scatter(&mut s.br, &s.active, new_br);
                let new_ar = images_of(a, &s.r, &s.active);
                proof {
                    lemma_scattered_block(
                        zero_block::<T>(k as nat, n as nat),
                        m.active,
                        columns(new_ar@),
                        sz as nat,
                        k as nat,
                        n as nat,
                    );
                }
                s.ar = zero_columns(k, n);
                scatter(&mut s.ar, &s.active, new_ar);
                if s.iteration > 1 {
                    proof {
                        lemma_compatible(s.p@, s.bp@, n as nat);
                        assert(sz * sz <= 9 * k * k) by (nonlinear_arith)
                            requires
                                sz <= k,
                        ;
                    }
                    let matrix = gram_sub(&s.p, &s.bp, &s.active, &s.active);
                    s.stage = Stage::DirectionBasis;
                    Step::Continue {
                        state: s,
                        request: Request::Factor { matrix: widen_all(&matrix), size: sz },
                    }
                } else {
                    self.ask_for_pairs(params, n, s, 0)
                }
            },
        }
    }

    /// Goes on with orthonormalised directions, or without any.
    fn resume_direction_basis(
        &self,
        params: &EigenParams<T>,
        n: usize,
        state: LobpcgState<T>,
        inverse: Option<Vec<T::Wide>>,
    ) -> (step: Step<T>)
        requires
            state.x@.len() >= 1,
            9 * state.x@.len() * state.x@.len() <= usize::MAX,
            state.stage is DirectionBasis,
            state.model().wf(state.x@.len(), n as nat),
            inverse matches Some(u) ==> u@.len() == state.active@.len() * state.active@.len(),
        ensures
            realises(
                step,
                self.after_direction_basis(n as nat, state.model(), entries(inverse)),
                *params,
            ),
            stays_wf(step, state.x@.len(), n as nat),
    {
        let k = state.x.len();
        let sz = state.active.len();
        let ghost m = state.model();
        match chol_upper_inv::<T>(&inverse) {
            None => self.ask_for_pairs(params, n, state, 0),
            Some(u) => {
                let mut s = state;
                assert(columns(s.p@)[0].len() == n);
                assert(columns(s.ap@)[0].len() == n);
                assert(columns(s.bp@)[0].len() == n);
                let new_p = vecs_combine(&s.p, &s.active, &u, sz);
                let new_ap = vecs_combine(&s.ap, &s.active, &u, sz);
                let new_bp = vecs_combine(&s.bp, &s.active, &u, sz);
                proof {
                    let (kk, nn) = (k as nat, n as nat);
                    lemma_scattered_block(m.p, m.active, columns(new_p@), sz as nat, kk, nn);
                    lemma_scattered_block(m.ap, m.active, columns(new_ap@), sz as nat, kk, nn);
                    lemma_scattered_block(m.bp, m.active, columns(new_bp@), sz as nat, kk, nn);
                }
                scatter(&mut s.p, &s.active, new_p);
                scatter(&mut s.ap, &s.active, new_ap);
                scatter(&mut s.bp, &s.active, new_bp);
                self.ask_for_pairs(params, n, s, sz)
            },
        }
    }
}

/// A matrix whose lower triangle is given becomes the symmetric one when mirrored.
proof fn lemma_mirrored_lower<T>(m: Seq<T>, lower: spec_fn(int, int) -> T, size: nat)
    requires
        m.len() == size * size,
        forall|p: int|
            0 <= p < size * size && p / (size as int) >= p % (size as int) ==> (#[trigger] m[p])
                == symmetric(lower, size)[p],
    ensures
        mirrored(m, size) == symmetric(lower, size),
{
    let want = symmetric(lower, size);
    assert forall|p: int| 0 <= p < size * size implies mirrored(m, size)[p] == want[p] by {
        lemma_row_and_column(p, size as int, size as int);
        let (i, j) = (p / size as int, p % size as int);
        if i < j {
            lemma_position(j, i, size as int, size as int);
            assert(m[j * size + i] == want[j * size + i]);
        } else {
            assert(m[p] == want[p]);
        }
    }
    assert(mirrored(m, size) =~= want);
}


/// The coordinates of Ritz vector `j` lie inside the coordinate matrix.
proof fn lemma_coordinates_inside(j: int, k: int, size: int)
    requires
        0 <= j < k,
        0 <= size,
    ensures
        0 <= j * size,
        j * size + size <= k * size,
{
    assert(0 <= j * size) by (nonlinear_arith)
        requires
            0 <= j,
            0 <= size,
    ;
    assert(j * size + size <= k * size) by (nonlinear_arith)
        requires
            0 <= j,
            0 <= size,
            j + 1 <= k,
    ;
}

impl<'p, T: Scalar> Lobpcg<'p, T> {
    /// The new directions, or their images.
    fn new_directions(
        &self,
        n: usize,
        state: &LobpcgState<T>,
        directions: usize,
        coords: &Vec<T>,
        dirs: &Vec<DenseVec<T>>,
        res: &Vec<DenseVec<T>>,
    ) -> (out: Vec<DenseVec<T>>)
        requires
            is_block(columns(dirs@), state.x@.len(), n as nat),
            is_block(columns(res@), state.x@.len(), n as nat),
            all_below(state.active@, state.x@.len()),
            directions == 0 || directions == state.active@.len(),
            state.x@.len() + state.active@.len() + directions <= usize::MAX,
            coords@.len() == state.x@.len() * (state.x@.len() + state.active@.len() + directions),
        ensures
            columns(out@) == state.model().moved_directions(
                directions as nat,
                coords@,
                columns(dirs@),
                columns(res@),
                n as nat,
            ),
            is_block(columns(out@), state.x@.len(), n as nat),
    {
        let k = state.x.len();
        let s = state.active.len();
        let size = k + s + directions;
        let ghost m = state.model();
        let ghost want = m.moved_directions(
            directions as nat,
            coords@,
            columns(dirs@),
            columns(res@),
            n as nat,
        );
        let mut out: Vec<DenseVec<T>> = Vec::new();
        let mut j: usize = 0;
        while j < k
            invariant
                j <= k,
                k == state.x@.len(),
                s == state.active@.len(),
                size == k + s + directions,
                coords.len() == k * size,
                m == state.model(),
                is_block(columns(dirs@), k as nat, n as nat),
                is_block(columns(res@), k as nat, n as nat),
                all_below(state.active@, k as nat),
                directions == 0 || directions == s,
                want == m.moved_directions(
                    directions as nat,
                    coords@,
                    columns(dirs@),
                    columns(res@),
                    n as nat,
                ),
                out@.len() == j,
                forall|c: int|
                    0 <= c < j ==> (#[trigger] out@[c])@ == want[c] && out@[c]@.len() == n,
            decreases k - j,
        {
            proof {
                lemma_coordinates_inside(j as int, k as int, size as int);
            }
            let mut column = DenseVec::<T>::zeros(n);
            if state.iteration > 1 && directions > 0 {
                add_combination(&mut column, coords, j * size + k + s, dirs, &state.active);
            }
            add_combination(&mut column, coords, j * size + k, res, &state.active);
            out.push(column);
            j = j + 1;
        }
        assert(columns(out@) =~= want);
        out
    }

    /// The new iterates, or their images.
    fn new_iterates(
        &self,
        n: usize,
        state: &LobpcgState<T>,
        directions: usize,
        coords: &Vec<T>,
        block: &Vec<DenseVec<T>>,
        dirs: &Vec<DenseVec<T>>,
    ) -> (out: Vec<DenseVec<T>>)
        requires
            is_block(columns(block@), state.x@.len(), n as nat),
            is_block(columns(dirs@), state.x@.len(), n as nat),
            state.x@.len() + state.active@.len() + directions <= usize::MAX,
            coords@.len() == state.x@.len() * (state.x@.len() + state.active@.len() + directions),
        ensures
            columns(out@) == state.model().moved_iterates(
                directions as nat,
                coords@,
                columns(block@),
                columns(dirs@),
                n as nat,
            ),
            is_block(columns(out@), state.x@.len(), n as nat),
    {
        let k = state.x.len();
        let size = k + state.active.len() + directions;
        let all = index_range(k);
        let ghost m = state.model();
        let ghost want = m.moved_iterates(
            directions as nat,
            coords@,
            columns(block@),
            columns(dirs@),
            n as nat,
        );
        let mut out: Vec<DenseVec<T>> = Vec::new();
        let mut j: usize = 0;
        while j < k
            invariant
                j <= k,
                k == state.x@.len(),
                size == k + state.active@.len() + directions,
                coords.len() == k * size,
                all@ == first_indices(k as nat),
                m == state.model(),
                is_block(columns(block@), k as nat, n as nat),
                is_block(columns(dirs@), k as nat, n as nat),
                want == m.moved_iterates(
                    directions as nat,
                    coords@,
                    columns(block@),
                    columns(dirs@),
                    n as nat,
                ),
                out@.len() == j,
                forall|c: int|
                    0 <= c < j ==> (#[trigger] out@[c])@ == want[c] && out@[c]@.len() == n,
            decreases k - j,
        {
            proof {
                lemma_coordinates_inside(j as int, k as int, size as int);
            }
            let mut column = DenseVec::<T>::zeros(n);
            add_combination(&mut column, coords, j * size, block, &all);
            assert(columns(dirs@)[j as int].len() == n);
            column.axpy(T::one(), &dirs[j]);
            out.push(column);
            j = j + 1;
        }
        assert(columns(out@) =~= want);
        out
    }

    /// Goes on with the Rayleigh–Ritz pairs on the search space.
    fn resume_ritz(
        &self,
        params: &EigenParams<T>,
        n: usize,
        state: LobpcgState<T>,
        directions: usize,
        outcome: PencilOutcome<T::Wide>,
    ) -> (step: Step<T>)
        requires
            self.acts_on(n as nat),
            state.x@.len() >= 1,
            9 * state.x@.len() * state.x@.len() <= usize::MAX,
            state.stage == (Stage::Ritz { directions }),
            state.model().wf(state.x@.len(), n as nat),
            state.model().answered_by(Reply::Pencil(outcome).model()),
        ensures
            realises(
                step,
                self.after_ritz(
                    *params,
                    n as nat,
                    state.model(),
                    directions as nat,
                    Reply::Pencil(outcome).model(),
                ),
                *params,
            ),
            stays_wf(step, state.x@.len(), n as nat),
    {
        let k = state.x.len();
        let sz = state.active.len();
        let ghost m = state.model();
        assert(k + k + k <= 9 * k * k) by (nonlinear_arith)
            requires
                k >= 1,
        ;
        assert(k * k <= 9 * k * k) by (nonlinear_arith);
        let size = k + sz + directions;
        match dense_symm_eig_gen::<T>(outcome, size) {
            Err(e) => Step::Done(Err(e)),
            Ok(pairs) => {
                let ghost raw = outcome->values@;
                let from = if params.which == EigenWhich::LargestAlgebraic {
                    size - k
                } else {
                    0
                };
                proof {
                    lemma_ascending_sortable::<T>(raw);
                    lemma_kept_sortable(pairs.0@, from as nat, k as nat);
                    assert(pairs.1@.len() == size * size);
                    assert(0 <= from * size <= (from + k) * size <= size * size) by (nonlinear_arith)
                        requires
                            from + k <= size,
                    ;
                    assert((from + k) * size - from * size == k * size) by (nonlinear_arith);
                }
                let lambda = portion(&pairs.0, from, from + k);
                assert(pairs.1.len() == pairs.1@.len());
                let coords = portion(&pairs.1, from * size, (from + k) * size);
                let p = self.new_directions(n, &state, directions, &coords, &state.p, &state.r);
                let ap = self.new_directions(n, &state, directions, &coords, &state.ap, &state.ar);
                let bp = self.new_directions(n, &state, directions, &coords, &state.bp, &state.br);
                let x = self.new_iterates(n, &state, directions, &coords, &state.x, &p);
                let ax = self.new_iterates(n, &state, directions, &coords, &state.ax, &ap);
                let bx = self.new_iterates(n, &state, directions, &coords, &state.bx, &bp);
                let ghost fresh = Seq::new(
                    sz as nat,
                    |i: int|
                        residual(
                            columns(bx@)[m.active[i] as int],
                            columns(ax@)[m.active[i] as int],
                            lambda@[m.active[i] as int],
                        ),
                );
                let ghost fresh_norms = Seq::new(sz as nat, |i: int| euclidean(fresh[i]));
                let mut s = state;
                let mut new_r: Vec<DenseVec<T>> = Vec::new();
                let mut i: usize = 0;
                while i < sz
                    invariant
                        i <= sz,
                        sz == s.active@.len(),
                        s.active@ == m.active,
                        all_below(m.active, k as nat),
                        is_block(columns(bx@), k as nat, n as nat),
                        is_block(columns(ax@), k as nat, n as nat),
                        lambda@.len() == k,
                        s.res_norms@.len() == k,
                        fresh == Seq::new(
                            sz as nat,
                            |i: int|
                                residual(
                                    columns(bx@)[m.active[i] as int],
                                    columns(ax@)[m.active[i] as int],
                                    lambda@[m.active[i] as int],
                                ),
                        ),
                        fresh_norms == Seq::new(sz as nat, |i: int| euclidean(fresh[i])),
                        new_r@.len() == i,
                        forall|c: int|
                            0 <= c < i ==> (#[trigger] new_r@[c])@ == fresh[c] && new_r@[c]@.len()
                                == n,
                        s.res_norms@ == scattered(m.res_norms, m.active, fresh_norms, i as nat),
                        s.stage == m.stage,
                        s.iteration == m.iteration,
                        columns(s.r@) == m.r,
                        columns(s.ar@) == m.ar,
                        columns(s.br@) == m.br,
                    decreases sz - i,
                {
                    let j = s.active[i];
                    assert(columns(bx@)[j as int].len() == n);
                    assert(columns(ax@)[j as int].len() == n);
                    let column = residual_vec(&bx[j], &ax[j], lambda[j]);
                    let norm = column.norm2();
                    s.res_norms.set(j, norm);
                    new_r.push(column);
                    i = i + 1;
                }
                assert(columns(new_r@) =~= fresh);
                proof {
                    lemma_scattered_block(m.r, m.active, fresh, sz as nat, k as nat, n as nat);
                }
                scatter(&mut s.r, &s.active, new_r);
                s.x = x;
                s.ax = ax;
                s.bx = bx;
                s.p = p;
                s.ap = ap;
                s.bp = bp;
                s.lambda = lambda;
                let ghost want = m.moved(directions as nat, lambda@, coords@, n as nat);
                assert(s.model() =~= want);
                let it = s.iteration;
                if it < params.max_iter {
                    self.iterate(params, n, s, it + 1)
                } else {
                    Step::Done(
                        Err(
                            SolverError::ConvergenceFailed {
                                max_iter: params.max_iter,
                                residual: widen(
                                    max_residual(&s.res_norms),
                                    T::Wide::infinity(),
                                ),
                            },
                        ),
                    )
                }
            },
        }
    }

    /// Goes on with a run that was given the decomposition it waits for.
    pub fn resume<Op: LinearOperator<T>>(
        &self,
        a: &Op,
        params: &EigenParams<T>,
        state: LobpcgState<T>,
        reply: Reply<T::Wide>,
    ) -> (step: Step<T>)
        requires
            a.rows() == a.cols(),
            1 <= params.n_eigenvalues,
            9 * params.n_eigenvalues * params.n_eigenvalues <= usize::MAX,
            self.acts_on(a.rows()),
            state.model().wf(params.n_eigenvalues as nat, a.rows()),
            state.model().answered_by(reply.model()),
        ensures
            realises(step, self.resumed(*a, *params, state.model(), reply.model()), *params),
            stays_wf(step, params.n_eigenvalues as nat, a.rows()),
    {
        let n = a.nrows();
        let k = params.n_eigenvalues;
        assert(k * k <= 9 * k * k) by (nonlinear_arith);
        match state.stage {
            Stage::InitialBasis => {
                let inverse = match reply {
                    Reply::Factor(inverse) => inverse,
                    Reply::Pencil(_) => None,
                };
                self.resume_initial_basis(a, params, state, inverse)
            },
            Stage::ResidualBasis => {
                let inverse = match reply {
                    Reply::Factor(inverse) => inverse,
                    Reply::Pencil(_) => None,
                };
                self.resume_residual_basis(a, params, state, inverse)
            },
            Stage::DirectionBasis => {
                let inverse = match reply {
                    Reply::Factor(inverse) => inverse,
                    Reply::Pencil(_) => None,
                };
                self.resume_direction_basis(params, n, state, inverse)
            },
            Stage::InitialRitz => {
                let outcome = match reply {
                    Reply::Pencil(outcome) => outcome,
                    Reply::Factor(_) => PencilOutcome::NotPositiveDefinite,
                };
                self.resume_initial_ritz(params, n, state, outcome)
            },
            Stage::Ritz { directions } => {
                let outcome = match reply {
                    Reply::Pencil(outcome) => outcome,
                    Reply::Factor(_) => PencilOutcome::NotPositiveDefinite,
                };
                self.resume_ritz(params, n, state, directions, outcome)
            },
        }
    }
}

} // verus!
