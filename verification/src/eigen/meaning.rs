//! What the steps of a LOBPCG run do with what the solver was given: its operators, its
//! preconditioner and its projector, its tolerance and its limit, and the order that was asked for.
use super::block::{
    accumulate, all_below, combined, first_indices, lemma_accumulate_length, residual, scattered,
    transposed,
};
use super::dense::{ascending_values, ascending_vectors};
use super::invariants::{
    acts_linearly, image_pairs, lemma_fresh_residuals, lemma_keeps_tracking,
    lemma_locked_residuals, lemma_unconverged_columns, state_of, tracks,
};
use super::lobpcg::{
    first_kept, kept_coords, kept_values, largest, magnitudes, mapped, realises, result_order,
    unconverged_columns, zero_block, Lobpcg, LobpcgModel, ReplyModel, Stage, Step, StepModel,
};
use super::orthonormal::lemma_accumulate_total;
use super::rayleigh_ritz::lemma_accumulate_from;
use super::{EigenParams, EigenResult, EigenWhich};
use crate::error::{is_breakdown, SolverError};
use crate::exact::{is_ring, lemma_ring, lemma_total_same, total};
use crate::index::lemma_position;
use crate::operator::LinearOperator;
use crate::order::{gather, lemma_sorting_exists, sorting, totally_ordered};
use crate::scalar::{wide_or, Field, Real, Scalar};
use crate::vector::{columns, dot_product, euclidean, zero_vector};
use vstd::prelude::*;

verus! {

/// `λ·u − w`.
pub open spec fn scaled_difference<T: Field>(lambda: T, u: Seq<T>, w: Seq<T>) -> Seq<T> {
    Seq::new(u.len(), |t: int| lambda.times(u[t]).minus(w[t]))
}

/// The listed entries are replaced, where no entry is listed twice.
pub proof fn lemma_scattered_at<A>(block: Seq<A>, rows: Seq<usize>, new: Seq<A>, m: nat, i: int)
    requires
        m <= rows.len(),
        all_below(rows, block.len()),
        forall|a: int, b: int| 0 <= a < b < rows.len() ==> #[trigger] rows[a] != #[trigger] rows[b],
        0 <= i < m,
    ensures
        scattered(block, rows, new, m).len() == block.len(),
        scattered(block, rows, new, m)[rows[i] as int] == new[i],
    decreases m,
{
    let less = (m - 1) as nat;
    if i < m - 1 {
        lemma_scattered_at(block, rows, new, less, i);
        assert(rows[i] != rows[m - 1]);
    } else {
        lemma_scattered_length(block, rows, new, less);
    }
}

/// Replacing entries keeps their number.
proof fn lemma_scattered_length<A>(block: Seq<A>, rows: Seq<usize>, new: Seq<A>, m: nat)
    requires
        m <= rows.len(),
        all_below(rows, block.len()),
    ensures
        scattered(block, rows, new, m).len() == block.len(),
    decreases m,
{
    if m > 0 {
        lemma_scattered_length(block, rows, new, (m - 1) as nat);
    }
}

/// The columns that have not converged are listed in ascending order.
proof fn lemma_active_ascend<T: Scalar>(
    lambda: Seq<T>,
    res_norms: Seq<T>,
    tol: T::Wide,
    j: nat,
)
    requires
        j <= usize::MAX,
    ensures
        forall|a: int, b: int|
            0 <= a < b < unconverged_columns(lambda, res_norms, tol, j).len()
                ==> #[trigger] unconverged_columns(lambda, res_norms, tol, j)[a]
                < #[trigger] unconverged_columns(lambda, res_norms, tol, j)[b],
    decreases j,
{
    if j > 0 {
        lemma_active_ascend(lambda, res_norms, tol, (j - 1) as nat);
        lemma_unconverged_columns(lambda, res_norms, tol, (j - 1) as nat);
        let (all, rest) = (
            unconverged_columns(lambda, res_norms, tol, j),
            unconverged_columns(lambda, res_norms, tol, (j - 1) as nat),
        );
        assert forall|a: int, b: int| 0 <= a < b < all.len() implies #[trigger] all[a]
            < #[trigger] all[b] by {
            assert(all[a] == rest[a]);
            if b < rest.len() {
                assert(all[b] == rest[b]);
            }
        }
    }
}

/// The state with which a Rayleigh–Ritz step enters the next iteration.
pub open spec fn entered<T: Scalar>(
    m: LobpcgModel<T>,
    params: EigenParams<T>,
    values: Seq<T::Wide>,
    vectors: Seq<T::Wide>,
    n: nat,
) -> LobpcgModel<T> {
    m.moved(
        (m.stage->directions) as nat,
        kept_values(ascending_values::<T>(values), m.x.len(), params.which),
        kept_coords(
            ascending_vectors::<T>(values, vectors),
            values.len(),
            m.x.len(),
            params.which,
        ),
        n,
    )
}

/// Where a run waits for the factor of its residuals, every active column of them is what the
/// preconditioner, and after it the projector, make of the residual `λ·Bx − Ax` of that column: of
/// its new iterate, or of the one with which the column was locked, where it was.
pub proof fn lemma_residuals_preconditioned<'p, T: Scalar, Op: LinearOperator<T>>(
    solver: Lobpcg<'p, T>,
    a: Op,
    params: EigenParams<T>,
    m: LobpcgModel<T>,
    reply: ReplyModel<T::Wide>,
    k: nat,
    i: int,
)
    requires
        k <= usize::MAX,
        m.wf(k, a.rows()),
        m.answered_by(reply),
    ensures
        solver.resumed(a, params, m, reply) matches StepModel::Factor { state, .. } ==> (
        state.stage is ResidualBasis && 0 <= i < state.active.len() ==> {
            let j = state.active[i] as int;
            let plain = if m.stage is InitialRitz || m.active.contains(state.active[i]) {
                scaled_difference(state.lambda[j], state.bx[j], state.ax[j])
            } else {
                m.r[j]
            };
            let conditioned = match solver.precond {
                Some(t) => t.correction(plain),
                None => plain,
            };
            state.r[j] == (match solver.projector {
                Some(q) => q.correction(conditioned),
                None => conditioned,
            })
        }),
{
    let n = a.rows();
    if let ReplyModel::Pairs { values, vectors } = reply {
        let next = match m.stage {
            Stage::InitialRitz => initial_entered(m, values, vectors, n),
            _ => entered(m, params, values, vectors, n),
        };
        let it = if m.stage is InitialRitz {
            1
        } else {
            m.iteration + 1
        };
        let step = solver.resumed(a, params, m, reply);
        assert(step == solver.iterated(params, n, next, it));
        if let StepModel::Factor { state, .. } = step {
            if 0 <= i < state.active.len() {
                let tol = Lobpcg::<'p, T>::tolerance(params);
                let active = unconverged_columns(next.lambda, next.res_norms, tol, k);
                lemma_unconverged_columns(next.lambda, next.res_norms, tol, k);
                lemma_active_ascend(next.lambda, next.res_norms, tol, k);
                assert(state.active == active);
                let new = mapped(next.r, active, |v: Seq<T>| solver.corrected(v));
                let j = active[i] as int;
                assert(active[i] < k);
                assert(next.r.len() == k) by {
                    if !(m.stage is InitialRitz) {
                        lemma_fresh_residuals(
                            m,
                            (m.stage->directions) as nat,
                            kept_values(ascending_values::<T>(values), k, params.which),
                            kept_coords(
                                ascending_vectors::<T>(values, vectors),
                                values.len(),
                                k,
                                params.which,
                            ),
                            k,
                            n,
                            0,
                        );
                        let fresh = Seq::new(
                            m.active.len(),
                            |c: int|
                                residual(
                                    next.bx[m.active[c] as int],
                                    next.ax[m.active[c] as int],
                                    next.lambda[m.active[c] as int],
                                ),
                        );
                        lemma_scattered_length(m.r, m.active, fresh, m.active.len());
                    }
                }
                lemma_scattered_at(next.r, active, new, active.len(), i);
                assert(state.r[j] == solver.corrected(next.r[j]));
                if m.stage is InitialRitz {
                    assert(next.r[j] =~= scaled_difference(
                        next.lambda[j],
                        next.bx[j],
                        next.ax[j],
                    ));
                } else {
                    let (dirs, lambda, coords) = (
                        (m.stage->directions) as nat,
                        kept_values(ascending_values::<T>(values), k, params.which),
                        kept_coords(
                            ascending_vectors::<T>(values, vectors),
                            values.len(),
                            k,
                            params.which,
                        ),
                    );
                    if m.active.contains(active[i]) {
                        let c = m.active.index_of(active[i]);
                        assert(m.active[c] == active[i]);
                        lemma_fresh_residuals(m, dirs, lambda, coords, k, n, c);
                        assert(next.r[j] =~= scaled_difference(
                            next.lambda[j],
                            next.bx[j],
                            next.ax[j],
                        ));
                    } else {
                        lemma_locked_residuals(m, dirs, lambda, coords, k, n, j);
                    }
                }
            }
        }
    }
}

/// The state with which the initial Rayleigh–Ritz step enters the first iteration.
pub open spec fn initial_entered<T: Scalar>(
    m: LobpcgModel<T>,
    values: Seq<T::Wide>,
    vectors: Seq<T::Wide>,
    n: nat,
) -> LobpcgModel<T> {
    let k = m.x.len();
    let all = first_indices(k);
    let lambda = ascending_values::<T>(values);
    let coords = transposed(ascending_vectors::<T>(values, vectors), k);
    let x = combined(m.x, all, coords, k, n);
    let ax = combined(m.ax, all, coords, k, n);
    let bx = combined(m.bx, all, coords, k, n);
    let r = Seq::new(k, |j: int| residual(bx[j], ax[j], lambda[j]));
    LobpcgModel {
        x,
        ax,
        bx,
        r,
        p: zero_block(k, n),
        ap: zero_block(k, n),
        bp: zero_block(k, n),
        lambda,
        res_norms: Seq::new(k, |j: int| euclidean(r[j])),
        ..m
    }
}

/// A run starts with the block that it is given, with zeros at the eliminated entries, and then
/// projected; with its images under `B`, where there is one; and asks for the factor of their
/// products.
pub proof fn lemma_starting_block<'p, T: Scalar>(
    solver: Lobpcg<'p, T>,
    initial: Seq<Seq<T>>,
    i: int,
    j: int,
)
    requires
        0 <= i < initial.len(),
        0 <= j < initial.len(),
    ensures
        ({
            let k = initial.len();
            let zeroed = Seq::new(
                initial[j].len(),
                |t: int|
                    if solver.zero_dofs matches Some(dofs) && dofs@.contains(t as usize) {
                        T::nought()
                    } else {
                        initial[j][t]
                    },
            );
            &&& solver.started(initial) matches StepModel::Factor { state, matrix, size }
            &&& size == k
            &&& state.stage is InitialBasis
            &&& state.x[j] == (match solver.projector {
                Some(q) => q.correction(zeroed),
                None => zeroed,
            })
            &&& state.bx[j] == (match solver.b_op {
                Some(b) => b.image(state.x[j]),
                None => state.x[j],
            })
            &&& k <= usize::MAX ==> matrix[i * k + j] == wide_or(
                dot_product(state.x[i], state.bx[j]),
                T::Wide::nought(),
            )
        }),
{
    let k = initial.len();
    let zeroed = Seq::new(
        initial[j].len(),
        |t: int|
            if solver.zero_dofs matches Some(dofs) && dofs@.contains(t as usize) {
                T::nought()
            } else {
                initial[j][t]
            },
    );
    assert(solver.eliminated(initial[j]) =~= zeroed);
    lemma_position(i, j, k as int, k as int);
}

/// A projector confines a run: where it takes every vector into a space, so does everything that
/// the run projects.
pub proof fn lemma_projector_confines<'p, T: Scalar>(
    solver: Lobpcg<'p, T>,
    space: spec_fn(Seq<T>) -> bool,
    n: nat,
)
    requires
        solver.projector matches Some(q) && forall|v: Seq<T>|
            v.len() == n ==> space(#[trigger] q.correction(v)),
        solver.precond matches Some(t) ==> forall|v: Seq<T>|
            v.len() == n ==> (#[trigger] t.correction(v)).len() == n,
    ensures
        solver.confines(space, n),
{
}

/// The seeds of the initial columns start with that of the solver, and grow by a fixed step, modulo
/// `2⁶⁴`.
pub proof fn lemma_column_seeds<'p, T: Scalar>(solver: Lobpcg<'p, T>, j: int)
    requires
        j >= 0,
    ensures
        solver.seed_of(0) == solver.seed,
        solver.seed_of(j + 1) == (solver.seed_of(j) + 0xdeadbeef) % 0x1_0000_0000_0000_0000,
{
    let (m, s) = (0x1_0000_0000_0000_0000int, solver.seed as int);
    vstd::arithmetic::div_mod::lemma_small_mod(solver.seed as nat, m as nat);
    let before = s + j * 0xdeadbeef;
    assert(s + (j + 1) * 0xdeadbeef == before + 0xdeadbeef);
    vstd::arithmetic::div_mod::lemma_add_mod_noop(before, 0xdeadbeef, m);
    vstd::arithmetic::div_mod::lemma_add_mod_noop(before % m, 0xdeadbeef, m);
    vstd::arithmetic::div_mod::lemma_mod_twice(before, m);
}

/// The residual norm of a column exceeds its tolerance `|λ|·tol + tol + eps`, where a tolerance
/// without a double-precision value counts as 1e-10.
pub open spec fn exceeds_tolerance<T: Scalar>(lambda: T, res_norm: T, tol: T) -> bool {
    let t = match tol.widened() {
        Some(w) => w,
        None => T::Wide::scaled(1, -10),
    };
    let size = match lambda.widened() {
        Some(w) => w.magnitude(),
        None => T::Wide::nought().magnitude(),
    };
    let res = match res_norm.widened() {
        Some(w) => w,
        None => T::Wide::unbounded(),
    };
    size.times(t).plus(t).plus(T::Wide::resolution()).less(res)
}

/// A run goes on as long as a residual exceeds its tolerance, with exactly those columns active;
/// it converges where none does; and it gives up where it would have to begin an iteration beyond
/// the limit.
pub proof fn lemma_when_a_run_stops<'p, T: Scalar, Op: LinearOperator<T>>(
    solver: Lobpcg<'p, T>,
    a: Op,
    params: EigenParams<T>,
    m: LobpcgModel<T>,
    reply: ReplyModel<T::Wide>,
    k: nat,
)
    requires
        k <= usize::MAX,
        m.wf(k, a.rows()),
        m.answered_by(reply),
    ensures
        solver.resumed(a, params, m, reply) is Exhausted <==> reply is Pairs && ((m.stage
            is InitialRitz && params.max_iter == 0) || (m.stage is Ritz && m.iteration
            >= params.max_iter)),
        solver.resumed(a, params, m, reply) matches StepModel::Converged { state } ==> {
            &&& 1 <= state.iteration <= params.max_iter
            &&& state.x.len() == k
            &&& forall|j: int|
                0 <= j < k ==> !exceeds_tolerance(
                    #[trigger] state.lambda[j],
                    state.res_norms[j],
                    params.tol,
                )
        },
        solver.resumed(a, params, m, reply) matches StepModel::Factor { state, .. } ==> (
        state.stage is ResidualBasis ==> {
            &&& state.iteration == (if m.stage is InitialRitz {
                1
            } else {
                m.iteration + 1
            })
            &&& state.iteration <= params.max_iter
            &&& state.active.len() >= 1
            &&& forall|c: usize|
                c < k ==> (#[trigger] state.active.contains(c) <==> exceeds_tolerance(
                    state.lambda[c as int],
                    state.res_norms[c as int],
                    params.tol,
                ))
        }),
{
    let n = a.rows();
    if let ReplyModel::Pairs { values, vectors } = reply {
        let next = match m.stage {
            Stage::InitialRitz => initial_entered(m, values, vectors, n),
            _ => entered(m, params, values, vectors, n),
        };
        let it = if m.stage is InitialRitz {
            1
        } else {
            m.iteration + 1
        };
        assert(solver.resumed(a, params, m, reply) == solver.iterated(params, n, next, it));
        let tol = Lobpcg::<'p, T>::tolerance(params);
        lemma_unconverged_columns(next.lambda, next.res_norms, tol, k);
        let active = unconverged_columns(next.lambda, next.res_norms, tol, k);
        assert forall|j: int| 0 <= j < k && active.len() == 0 implies !exceeds_tolerance(
            #[trigger] next.lambda[j],
            next.res_norms[j],
            params.tol,
        ) by {
            assert(!active.contains(j as usize));
        }
    }
}

/// What convergence means: the residual `λ·Bx − Ax` of an iterate that was active in the last
/// iteration, or that the initial block gave, is within its tolerance; the images are those under
/// the operators that the solver was given.
pub proof fn lemma_converged_pairs<'p, T: Scalar, Op: LinearOperator<T>>(
    solver: Lobpcg<'p, T>,
    a: Op,
    params: EigenParams<T>,
    m: LobpcgModel<T>,
    reply: ReplyModel<T::Wide>,
    k: nat,
    j: int,
)
    requires
        k <= usize::MAX,
        m.wf(k, a.rows()),
        m.answered_by(reply),
        solver.keeps_length(a.rows()),
        acts_linearly(|v: Seq<T>| a.image(v), a.rows()),
        acts_linearly(|v: Seq<T>| solver.b_image(v), a.rows()),
        tracks(m, |v: Seq<T>| a.image(v), |v: Seq<T>| solver.b_image(v), a.rows()),
        0 <= j < k,
        m.stage is InitialRitz || m.active.contains(j as usize),
    ensures
        solver.resumed(a, params, m, reply) matches StepModel::Converged { state } ==> {
            let image = match solver.b_op {
                Some(b) => b.image(state.x[j]),
                None => state.x[j],
            };
            let norm = euclidean(
                scaled_difference(state.lambda[j], image, a.image(state.x[j])),
            );
            &&& state.res_norms[j] == norm
            &&& !exceeds_tolerance(state.lambda[j], norm, params.tol)
        },
{
    let n = a.rows();
    let (fa, fb) = (|v: Seq<T>| a.image(v), |v: Seq<T>| solver.b_image(v));
    lemma_when_a_run_stops(solver, a, params, m, reply, k);
    lemma_keeps_tracking(solver, a, params, m, reply, k);
    let step = solver.resumed(a, params, m, reply);
    if let StepModel::Converged { state } = step {
        if let ReplyModel::Pairs { values, vectors } = reply {
            assert(tracks(state, fa, fb, n));
            assert(image_pairs(fa, n)(state.x[j], state.ax[j]));
            assert(image_pairs(fb, n)(state.x[j], state.bx[j]));
            if m.stage is InitialRitz {
                let next = initial_entered(m, values, vectors, n);
                assert(step == solver.iterated(params, n, next, 1));
                assert(next.r[j] =~= scaled_difference(state.lambda[j], state.bx[j], state.ax[j]));
            } else {
                let next = entered(m, params, values, vectors, n);
                assert(step == solver.iterated(params, n, next, m.iteration + 1));
                let c = m.active.index_of(j as usize);
                assert(m.active[c] == j as usize);
                lemma_fresh_residuals(
                    m,
                    (m.stage->directions) as nat,
                    kept_values(ascending_values::<T>(values), k, params.which),
                    kept_coords(
                        ascending_vectors::<T>(values, vectors),
                        values.len(),
                        k,
                        params.which,
                    ),
                    k,
                    n,
                    c,
                );
                assert(next.r[j] =~= scaled_difference(state.lambda[j], state.bx[j], state.ax[j]));
            }
        }
    }
}

/// In exact arithmetic the residual of a pair vanishes exactly where it is an eigenpair.
pub proof fn lemma_residual_vanishes<T: Field>(bx: Seq<T>, ax: Seq<T>, lambda: T, t: int)
    requires
        is_ring::<T>(),
        0 <= t < bx.len(),
    ensures
        residual(bx, ax, lambda)[t] == T::nought() <==> ax[t] == lambda.times(bx[t]),
{
    let (u, w, zero) = (lambda.times(bx[t]), ax[t], T::nought());
    lemma_ring(u, w, zero);
    lemma_ring(u, w.negated(), w);
    lemma_ring(w.negated(), w, zero);
    lemma_ring(w, w, zero);
    lemma_ring(u, zero, zero);
    lemma_ring(w, zero, zero);
    lemma_ring(u, u, zero);
}

/// The largest residual norm is one of them, or zero, and none exceeds it.
pub proof fn lemma_largest<T: Real>(res_norms: Seq<T>, k: nat)
    requires
        k <= res_norms.len(),
        totally_ordered(res_norms.push(T::nought())),
    ensures
        largest(res_norms, k) == T::nought() || exists|j: int|
            0 <= j < k && largest(res_norms, k) == #[trigger] res_norms[j],
        forall|j: int| 0 <= j < k ==> !largest(res_norms, k).less(#[trigger] res_norms[j]),
        !largest(res_norms, k).less(T::nought()),
    decreases k,
{
    let all = res_norms.push(T::nought());
    let last = res_norms.len() as int;
    assert(!all[last].less(all[last]));
    if k > 0 {
        let less = (k - 1) as nat;
        lemma_largest(res_norms, less);
        let (before, now) = (largest(res_norms, less), largest(res_norms, k));
        let p = if before == T::nought() {
            last
        } else {
            choose|j: int| 0 <= j < less && before == #[trigger] res_norms[j]
        };
        assert(all[p] == before);
        let q = if before.less(res_norms[k - 1]) {
            k - 1
        } else {
            p
        };
        assert(all[q] == now);
        assert(all[k - 1] == res_norms[k - 1]);
        assert(!now.less(res_norms[k - 1])) by {
            assert(!all[k - 1].less(all[k - 1]));
        }
        assert forall|j: int| 0 <= j < k implies !now.less(#[trigger] res_norms[j]) by {
            if j < k - 1 {
                assert(all[j] == res_norms[j]);
                assert(!before.less(res_norms[j]));
                if now.less(res_norms[j]) && q != p {
                    // before < now < norm
                    assert(all[p].less(all[q]) && all[q].less(all[j]));
                }
            }
        }
        if now.less(T::nought()) && q != p {
            assert(all[p].less(all[q]) && all[q].less(all[last]));
        }
        if now != T::nought() {
            assert(exists|j: int| 0 <= j < k && now == #[trigger] res_norms[j]) by {
                assert(now == res_norms[q]);
            }
        }
    }
}

/// A number that no residual norm exceeds, and that is one of them or zero.
pub open spec fn tops<T: Real>(res_norms: Seq<T>, top: T) -> bool {
    &&& top == T::nought() || res_norms.contains(top)
    &&& forall|j: int| 0 <= j < res_norms.len() ==> !top.less(#[trigger] res_norms[j])
}

/// The state with which a run goes on from a Rayleigh–Ritz step, the first one or a later one.
pub open spec fn after_pairs<T: Scalar>(
    m: LobpcgModel<T>,
    params: EigenParams<T>,
    values: Seq<T::Wide>,
    vectors: Seq<T::Wide>,
    n: nat,
) -> LobpcgModel<T> {
    if m.stage is InitialRitz {
        initial_entered(m, values, vectors, n)
    } else {
        entered(m, params, values, vectors, n)
    }
}

/// A run that gives up reports its limit and the largest of its residual norms.
pub proof fn lemma_reported_residual<'p, T: Scalar, Op: LinearOperator<T>>(
    solver: Lobpcg<'p, T>,
    a: Op,
    params: EigenParams<T>,
    m: LobpcgModel<T>,
    values: Seq<T::Wide>,
    vectors: Seq<T::Wide>,
    step: Step<T>,
    k: nat,
)
    requires
        m.wf(k, a.rows()),
        m.answered_by(ReplyModel::Pairs { values, vectors }),
        solver.resumed(a, params, m, ReplyModel::Pairs { values, vectors }) is Exhausted,
        realises(
            step,
            solver.resumed(a, params, m, ReplyModel::Pairs { values, vectors }),
            params,
        ),
        totally_ordered(
            after_pairs(m, params, values, vectors, a.rows()).res_norms.push(T::nought()),
        ),
    ensures
        exists|top: T| #[trigger]
            tops(after_pairs(m, params, values, vectors, a.rows()).res_norms, top) && step
                == Step::<T>::Done(
                Err(
                    SolverError::ConvergenceFailed {
                        max_iter: params.max_iter,
                        residual: match top.widened() {
                            Some(w) => w,
                            None => T::Wide::unbounded(),
                        },
                    },
                ),
            ),
{
    let next = after_pairs(m, params, values, vectors, a.rows());
    assert forall|new: Seq<T>| !(m.stage is InitialRitz) implies (#[trigger] scattered(
        m.res_norms,
        m.active,
        new,
        m.active.len(),
    )).len() == m.res_norms.len() by {
        lemma_scattered_length(m.res_norms, m.active, new, m.active.len());
    }
    assert(next.res_norms.len() == k);
    lemma_largest(next.res_norms, k);
    assert(tops(next.res_norms, largest(next.res_norms, k)));
}

/// What a run does without an answer to its request. Directions that cannot be orthonormalised are
/// left out; every other failure ends the run, and the error says which it was.
pub proof fn lemma_failed_requests<'p, T: Scalar, Op: LinearOperator<T>>(
    solver: Lobpcg<'p, T>,
    a: Op,
    params: EigenParams<T>,
    m: LobpcgModel<T>,
    reply: ReplyModel<T::Wide>,
    step: Step<T>,
    k: nat,
)
    requires
        m.wf(k, a.rows()),
        m.answered_by(reply),
        realises(step, solver.resumed(a, params, m, reply), params),
        reply matches ReplyModel::Factor(u) ==> u is None,
        !(reply is Pairs),
    ensures
        m.stage is DirectionBasis ==> step is Continue,
        !(m.stage is DirectionBasis) ==> (step matches Step::Done(Err(e)) && is_breakdown(
            e,
            match m.stage {
                Stage::InitialBasis
                => "LOBPCG: bad initial vectors — XᵀBX not SPD (linearly dependent block)"@,
                Stage::InitialRitz => "LOBPCG: initial Rayleigh–Ritz GEVP failed (bad problem)"@,
                Stage::ResidualBasis
                => "LOBPCG: orthonormalisation of residuals failed (DPOTRF)"@,
                _ => if reply is SingularFactor {
                    "LOBPCG: GEVP Cholesky factor singular (dsygv failure)"@
                } else {
                    "LOBPCG: GEVP B-matrix not positive definite (dsygv failure)"@
                },
            },
        )),
{
}

/// The size of the search space: in the first iteration the iterates and the active residuals, and
/// from the second on the active directions too, unless they cannot be orthonormalised. Their
/// factor is that of their products under `B`.
pub proof fn lemma_search_space<'p, T: Scalar, Op: LinearOperator<T>>(
    solver: Lobpcg<'p, T>,
    a: Op,
    params: EigenParams<T>,
    m: LobpcgModel<T>,
    u: Seq<T::Wide>,
)
    requires
        m.stage is ResidualBasis || m.stage is DirectionBasis,
        m.active.len() <= usize::MAX,
    ensures
        m.stage is ResidualBasis && m.iteration <= 1 ==> (solver.resumed(
            a,
            params,
            m,
            ReplyModel::Factor(Some(u)),
        ) matches StepModel::Pencil { state, size, .. } && size == m.x.len() + m.active.len()
            && state.stage == (Stage::Ritz { directions: 0 })),
        m.stage is ResidualBasis && m.iteration > 1 ==> (solver.resumed(
            a,
            params,
            m,
            ReplyModel::Factor(Some(u)),
        ) matches StepModel::Factor { state, matrix, size } && {
            &&& size == m.active.len()
            &&& state.stage is DirectionBasis
            &&& state.p == m.p
            &&& forall|i: int, j: int|
                0 <= i < size && 0 <= j < size ==> #[trigger] matrix[i * size + j] == wide_or(
                    dot_product(m.p[m.active[i] as int], m.bp[m.active[j] as int]),
                    T::Wide::nought(),
                )
        }),
        m.stage is DirectionBasis ==> (solver.resumed(
            a,
            params,
            m,
            ReplyModel::Factor(Some(u)),
        ) matches StepModel::Pencil { state, size, .. } && size == m.x.len() + 2 * m.active.len()
            && state.stage == (Stage::Ritz { directions: m.active.len() as usize })),
        m.stage is DirectionBasis ==> (solver.resumed(
            a,
            params,
            m,
            ReplyModel::<T::Wide>::Factor(None),
        ) matches StepModel::Pencil { size, .. } && size == m.x.len() + m.active.len()),
{
    if m.stage is ResidualBasis && m.iteration > 1 {
        if let StepModel::Factor { state, matrix, size } = solver.resumed(
            a,
            params,
            m,
            ReplyModel::Factor(Some(u)),
        ) {
            assert forall|i: int, j: int| 0 <= i < size && 0 <= j < size implies
                #[trigger] matrix[i * size + j] == wide_or(
                dot_product(m.p[m.active[i] as int], m.bp[m.active[j] as int]),
                T::Wide::nought(),
            ) by {
                lemma_position(i, j, size as int, size as int);
            }
        }
    }
}

/// The results are the pairs of a run, each with its iterate and the norm of its residual, in the
/// given order, in which every pair stands once.
pub open spec fn comes_from<T: Scalar>(
    result: EigenResult<T>,
    state: LobpcgModel<T>,
    order: Seq<usize>,
) -> bool {
    let k = state.x.len();
    &&& order.len() == k
    &&& forall|i: int| 0 <= i < k ==> (#[trigger] order[i]) < k
    &&& forall|i: int, j: int| 0 <= i < j < k ==> #[trigger] order[i] != #[trigger] order[j]
    &&& forall|i: int|
        0 <= i < k ==> {
            &&& #[trigger] result.eigenvalues@[i] == state.lambda[order[i] as int]
            &&& result.eigenvectors@[i]@ == state.x[order[i] as int]
            &&& result.residuals@[i] == state.res_norms[order[i] as int]
        }
}

/// Eigenvalue `i` may stand before `j`: it is not larger where the smallest come first, not smaller
/// where the largest do, and not smaller in absolute value where that decides. Where both ends are
/// wanted, it depends on whether it stands in the first half.
pub open spec fn wanted_first<T: Scalar>(values: Seq<T>, which: EigenWhich, i: int, j: int) -> bool {
    let (u, v) = (values[i], values[j]);
    match which {
        EigenWhich::SmallestAlgebraic | EigenWhich::SmallestMagnitude => !v.less(u),
        EigenWhich::LargestAlgebraic => !u.less(v),
        EigenWhich::LargestMagnitude => !wide_or(u, T::Wide::nought()).magnitude().less(
            wide_or(v, T::Wide::nought()).magnitude(),
        ),
        EigenWhich::BothEnds => if i < values.len() / 2 {
            !v.less(u)
        } else {
            !u.less(v)
        },
    }
}

/// The results of a run that has converged: every pair is one of the run, with its iterate and the
/// norm of its residual, no pair is listed twice, and all are listed, in the order that was asked
/// for.
pub proof fn lemma_results_of_a_run<T: Scalar>(
    step: Step<T>,
    state: LobpcgModel<T>,
    params: EigenParams<T>,
)
    requires
        realises(step, StepModel::Converged { state }, params),
    ensures
        ({
            let k = state.x.len();
            &&& step matches Step::Done(Ok(result))
            &&& result.eigenvalues@.len() == k
            &&& result.eigenvectors@.len() == k
            &&& result.residuals@.len() == k
            &&& result.converged == k
            &&& result.iterations == state.iteration
            &&& exists|order: Seq<usize>| #[trigger] comes_from(result, state, order)
            &&& forall|i: int, j: int|
                0 <= i < j < k ==> #[trigger] wanted_first(
                    result.eigenvalues@,
                    params.which,
                    i,
                    j,
                )
        }),
{
    let k = state.x.len();
    let order = result_order(state.lambda, params.which);
    if let Step::Done(Ok(result)) = step {
        assert(gather(state.lambda, order).len() == k);
        assert(columns(result.eigenvectors@).len() == k);
        assert forall|i: int| 0 <= i < k implies {
            &&& #[trigger] result.eigenvalues@[i] == state.lambda[order[i] as int]
            &&& result.eigenvectors@[i]@ == state.x[order[i] as int]
            &&& result.residuals@[i] == state.res_norms[order[i] as int]
        } by {
            assert(columns(result.eigenvectors@)[i] == gather(state.x, order)[i]);
        }
        assert(comes_from(result, state, order));
        let values = result.eigenvalues@;
        let sizes = magnitudes(values);
        assert forall|i: int, j: int| 0 <= i < j < k implies #[trigger] wanted_first(
            values,
            params.which,
            i,
            j,
        ) by {
            if params.which is LargestMagnitude {
                assert(!sizes[i].less(sizes[j]));
            }
        }
    }
}

/// In exact arithmetic, a Rayleigh–Ritz step moves the iterates to the Ritz vectors: each new one is
/// the combination of the old iterates, the active residuals and the active directions with the
/// coordinates of an eigenvector of the pencil, the Ritz value is its eigenvalue, and the new
/// direction is what the new iterate has besides the old iterates. Those with the largest
/// eigenvalues are taken for the top modes, those with the smallest otherwise.
pub proof fn lemma_ritz_vectors<'p, T: Scalar, Op: LinearOperator<T>>(
    solver: Lobpcg<'p, T>,
    a: Op,
    params: EigenParams<T>,
    m: LobpcgModel<T>,
    values: Seq<T::Wide>,
    vectors: Seq<T::Wide>,
    k: nat,
    j: int,
    t: int,
)
    requires
        is_ring::<T>(),
        3 * k <= usize::MAX,
        m.wf(k, a.rows()),
        m.stage is Ritz,
        m.stage matches Stage::Ritz { directions } ==> directions > 0 ==> m.iteration > 1,
        m.answered_by(ReplyModel::Pairs { values, vectors }),
        0 <= j < k,
        0 <= t < a.rows(),
    ensures
        state_of(solver.resumed(a, params, m, ReplyModel::Pairs { values, vectors })) matches Some(
            state,
        ) ==> {
            let s = m.active.len();
            let size = values.len();
            let at = if params.which is LargestAlgebraic {
                size - k + j
            } else {
                j
            };
            let col = sorting(values, false)[at] as int;
            let coordinate = |i: int| T::narrowed(vectors[i * size + col]);
            let on_x = total(k, |i: int| coordinate(i).times(m.x[i][t]));
            let on_r = total(
                s,
                |i: int| coordinate(k + i).times(m.r[m.active[i] as int][t]),
            );
            let on_p = if size == k + 2 * s {
                total(s, |i: int| coordinate(k + s + i).times(m.p[m.active[i] as int][t]))
            } else {
                T::nought()
            };
            &&& state.lambda[j] == T::narrowed(values[col])
            &&& state.x[j][t] == on_x.plus(on_r.plus(on_p))
            &&& state.p[j][t] == on_r.plus(on_p)
        },
{
    let n = a.rows();
    let s = m.active.len();
    let d = (m.stage->directions) as nat;
    let size = values.len();
    let from = first_kept(params.which, size, k);
    let v = ascending_vectors::<T>(values, vectors);
    let theta = ascending_values::<T>(values);
    let lambda = kept_values(theta, k, params.which);
    let coords = kept_coords(v, size, k, params.which);
    let next = entered(m, params, values, vectors, n);
    let reply = ReplyModel::Pairs { values, vectors };
    assert(solver.resumed(a, params, m, reply) == solver.iterated(params, n, next, m.iteration + 1));
    lemma_sorting_exists(values, false);
    let order = sorting(values, false);
    let at = from + j;
    assert(at < size);
    let col = order[at] as int;
    assert(0 <= col < size);
    let coordinate = |i: int| T::narrowed(vectors[i * size + col]);
    assert(0 <= from * size && (from + k) * size <= size * size && (from + k) * size - from * size
        == k * size) by (nonlinear_arith)
        requires
            from + k <= size,
            from >= 0,
    ;
    assert(0 <= j * size && j * size + size <= k * size && (from + j) * size == from * size + j
        * size) by (nonlinear_arith)
        requires
            0 <= j,
            j + 1 <= k,
            0 <= size,
            0 <= from,
    ;
    assert forall|i: int| 0 <= i < size implies #[trigger] coords[j * size + i] == coordinate(
        i,
    ) by {
        lemma_position(at, i, size as int, size as int);
        assert(coords[j * size + i] == v[from * size + (j * size + i)]);
        assert(from * size + (j * size + i) == at * size + i);
    }
    let zero = zero_vector::<T>(n);
    let none = T::nought();
    let (cx, cr, cp) = (
        coords.subrange(j * size, j * size + k),
        coords.subrange(j * size + k, j * size + k + s),
        coords.subrange(j * size + k + s, j * size + k + s + s),
    );
    let (gx, gr, gp) = (
        gather(m.x, first_indices(k)),
        gather(m.r, m.active),
        gather(m.p, m.active),
    );
    let (fx, fr, fp) = (
        |i: int| coordinate(i).times(m.x[i][t]),
        |i: int| coordinate(k + i).times(m.r[m.active[i] as int][t]),
        |i: int| coordinate(k + s + i).times(m.p[m.active[i] as int][t]),
    );
    // The old iterates.
    lemma_accumulate_total(n, cx, gx, k, t);
    let tx = |i: int| cx[i].times(gx[i][t]);
    assert forall|i: int| 0 <= i < k implies #[trigger] tx(i) == fx(i) by {
        assert(coords[j * size + i] == coordinate(i));
    }
    lemma_total_same(k, tx, fx);
    // The directions, and on top of them the residuals.
    let along = if d > 0 {
        accumulate(zero, cp, gp, s)
    } else {
        zero
    };
    let on_p = if d > 0 {
        total(s, fp)
    } else {
        none
    };
    assert(along.len() == n && along[t] == on_p) by {
        if d > 0 {
            lemma_accumulate_total(n, cp, gp, s, t);
            let tp = |i: int| cp[i].times(gp[i][t]);
            assert forall|i: int| 0 <= i < s implies #[trigger] tp(i) == fp(i) by {
                assert(coords[j * size + (k + s + i)] == coordinate(k + s + i));
            }
            lemma_total_same(s, tp, fp);
        }
    }
    let tr = |i: int| cr[i].times(gr[i][t]);
    lemma_accumulate_from(along, cr, gr, s, t);
    assert forall|i: int| 0 <= i < s implies #[trigger] tr(i) == fr(i) by {
        assert(coords[j * size + (k + i)] == coordinate(k + i));
    }
    lemma_total_same(s, tr, fr);
    let direction = m.moved_direction(d, coords, m.p, m.r, n, j);
    assert(direction == accumulate(along, cr, gr, s));
    lemma_ring(on_p, total(s, fr), none);
    assert(next.p[j] == direction);
    lemma_ring(direction[t], T::unit(), none);
    lemma_accumulate_length(zero, cx, gx, k);
    assert(next.x[j][t] == total(k, fx).plus(T::unit().times(direction[t])));
}

} // verus!
