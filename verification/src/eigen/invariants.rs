//! What every step of a LOBPCG run keeps.
//!
//! A run starts with [`Lobpcg::started`] and goes on with [`Lobpcg::resumed`]. The statements
//! here come in pairs: one for the start, one for a step from any state.
use super::block::{
    accumulate, all_below, combined, first_indices, matrix_column, residual, scattered, transposed,
};
use super::dense::{ascending_values, ascending_vectors};
use super::lobpcg::{
    kept_coords, kept_values, mapped, unconverged, unconverged_columns, zero_block, Lobpcg,
    LobpcgModel, ReplyModel, Stage, StepModel,
};
use super::EigenParams;
use crate::exact::{is_ring, lemma_plus_plus, lemma_ring, lemma_times_nought};
use crate::index::lemma_position;
use crate::operator::LinearOperator;
use crate::order::gather;
use crate::scalar::{narrowed_all, Field, Scalar};
use crate::sparse::{product, row_product, within};
use crate::vector::{euclidean, plus_multiple, zero_vector};
use vstd::prelude::*;

verus! {

/// The pairs of vectors that `rel` relates form a linear space.
pub open spec fn is_linear<T: Field>(rel: spec_fn(Seq<T>, Seq<T>) -> bool, n: nat) -> bool {
    &&& rel(zero_vector::<T>(n), zero_vector::<T>(n))
    &&& forall|y: Seq<T>, z: Seq<T>, c: T, v: Seq<T>, w: Seq<T>|
        #![trigger plus_multiple(y, c, v), plus_multiple(z, c, w)]
        rel(y, z) && rel(v, w) ==> rel(plus_multiple(y, c, v), plus_multiple(z, c, w))
}

/// The columns of two blocks are related, one by one.
pub open spec fn related<T>(
    rel: spec_fn(Seq<T>, Seq<T>) -> bool,
    x: Seq<Seq<T>>,
    y: Seq<Seq<T>>,
) -> bool {
    &&& x.len() == y.len()
    &&& forall|j: int| 0 <= j < x.len() ==> rel(#[trigger] x[j], y[j])
}

/// The listed columns of two blocks are related, one by one.
pub open spec fn related_at<T>(
    rel: spec_fn(Seq<T>, Seq<T>) -> bool,
    x: Seq<Seq<T>>,
    y: Seq<Seq<T>>,
    rows: Seq<usize>,
) -> bool {
    forall|i: int| 0 <= i < rows.len() ==> rel(x[#[trigger] rows[i] as int], y[rows[i] as int])
}

/// Related vectors, combined with the same coefficients, give related vectors.
pub proof fn lemma_accumulate_related<T: Field>(
    rel: spec_fn(Seq<T>, Seq<T>) -> bool,
    n: nat,
    start: Seq<T>,
    other: Seq<T>,
    coefficients: Seq<T>,
    v: Seq<Seq<T>>,
    w: Seq<Seq<T>>,
    m: nat,
)
    requires
        is_linear(rel, n),
        rel(start, other),
        forall|i: int| 0 <= i < m ==> rel(#[trigger] v[i], w[i]),
    ensures
        rel(accumulate(start, coefficients, v, m), accumulate(other, coefficients, w, m)),
    decreases m,
{
    if m > 0 {
        lemma_accumulate_related(rel, n, start, other, coefficients, v, w, (m - 1) as nat);
        assert(rel(v[m - 1], w[m - 1]));
        let y = accumulate(start, coefficients, v, (m - 1) as nat);
        let z = accumulate(other, coefficients, w, (m - 1) as nat);
        let c = coefficients[m - 1];
        assert(rel(plus_multiple(y, c, v[m - 1]), plus_multiple(z, c, w[m - 1])));
    }
}

proof fn lemma_combined_related<T: Field>(
    rel: spec_fn(Seq<T>, Seq<T>) -> bool,
    n: nat,
    x: Seq<Seq<T>>,
    y: Seq<Seq<T>>,
    rows: Seq<usize>,
    r: Seq<T>,
    w: nat,
)
    requires
        is_linear(rel, n),
        related_at(rel, x, y, rows),
    ensures
        related(rel, combined(x, rows, r, w, n), combined(y, rows, r, w, n)),
{
    assert forall|j: int| 0 <= j < w implies rel(
        #[trigger] combined(x, rows, r, w, n)[j],
        combined(y, rows, r, w, n)[j],
    ) by {
        assert forall|i: int| 0 <= i < rows.len() implies rel(
            #[trigger] gather(x, rows)[i],
            gather(y, rows)[i],
        ) by {
            assert(rel(x[rows[i] as int], y[rows[i] as int]));
        }
        lemma_accumulate_related(
            rel,
            n,
            zero_vector::<T>(n),
            zero_vector::<T>(n),
            matrix_column(r, rows.len(), w, j),
            gather(x, rows),
            gather(y, rows),
            rows.len(),
        );
    }
}

/// What holds of every replaced and every remaining column holds of the scattered block.
proof fn lemma_scattered_related<T>(
    rel: spec_fn(Seq<T>, Seq<T>) -> bool,
    x: Seq<Seq<T>>,
    y: Seq<Seq<T>>,
    rows: Seq<usize>,
    v: Seq<Seq<T>>,
    w: Seq<Seq<T>>,
    m: nat,
)
    requires
        m <= rows.len(),
        x.len() == y.len(),
        all_below(rows, x.len()),
        forall|i: int| 0 <= i < m ==> rel(#[trigger] v[i], w[i]),
    ensures
        scattered(x, rows, v, m).len() == x.len(),
        scattered(y, rows, w, m).len() == x.len(),
        forall|i: int|
            0 <= i < m ==> rel(
                scattered(x, rows, v, m)[#[trigger] rows[i] as int],
                scattered(y, rows, w, m)[rows[i] as int],
            ),
        related(rel, x, y) ==> related(rel, scattered(x, rows, v, m), scattered(y, rows, w, m)),
    decreases m,
{
    if m > 0 {
        lemma_scattered_related(rel, x, y, rows, v, w, (m - 1) as nat);
        let at = rows[m - 1] as int;
        let (px, py) = (
            scattered(x, rows, v, (m - 1) as nat),
            scattered(y, rows, w, (m - 1) as nat),
        );
        let (nx, ny) = (scattered(x, rows, v, m), scattered(y, rows, w, m));
        assert(rel(v[m - 1], w[m - 1]));
        assert forall|i: int| 0 <= i < m implies rel(
            nx[#[trigger] rows[i] as int],
            ny[rows[i] as int],
        ) by {
            if rows[i] != at {
                assert(nx[rows[i] as int] == px[rows[i] as int]);
                assert(ny[rows[i] as int] == py[rows[i] as int]);
            }
        }
        if related(rel, x, y) {
            assert forall|j: int| 0 <= j < nx.len() implies rel(#[trigger] nx[j], ny[j]) by {
                if j != at {
                    assert(rel(px[j], py[j]));
                }
            }
        }
    }
}

/// Entries that are not listed stay as they are.
pub proof fn lemma_scattered_elsewhere<A>(block: Seq<A>, rows: Seq<usize>, new: Seq<A>, m: nat, j: int)
    requires
        m <= rows.len(),
        all_below(rows, block.len()),
        0 <= j < block.len(),
        forall|i: int| 0 <= i < m ==> #[trigger] rows[i] != j,
    ensures
        scattered(block, rows, new, m).len() == block.len(),
        scattered(block, rows, new, m)[j] == block[j],
    decreases m,
{
    if m > 0 {
        lemma_scattered_elsewhere(block, rows, new, (m - 1) as nat, j);
    }
}

/// Blocks with related columns have related columns wherever one looks.
pub proof fn lemma_all_related<T>(
    rel: spec_fn(Seq<T>, Seq<T>) -> bool,
    x: Seq<Seq<T>>,
    y: Seq<Seq<T>>,
    rows: Seq<usize>,
)
    requires
        related(rel, x, y),
        all_below(rows, x.len()),
    ensures
        related_at(rel, x, y, rows),
{
}

/// A Rayleigh–Ritz step moves two related sets of iterates, directions and residuals in the same
/// way.
proof fn lemma_moved_related<T: Scalar>(
    rel: spec_fn(Seq<T>, Seq<T>) -> bool,
    n: nat,
    m: LobpcgModel<T>,
    directions: nat,
    coords: Seq<T>,
    x: Seq<Seq<T>>,
    y: Seq<Seq<T>>,
    p: Seq<Seq<T>>,
    q: Seq<Seq<T>>,
    r: Seq<Seq<T>>,
    s: Seq<Seq<T>>,
)
    requires
        is_linear(rel, n),
        m.x.len() <= usize::MAX,
        x.len() == m.x.len(),
        related(rel, x, y),
        related_at(rel, p, q, m.active),
        related_at(rel, r, s, m.active),
    ensures
        related(
            rel,
            m.moved_directions(directions, coords, p, r, n),
            m.moved_directions(directions, coords, q, s, n),
        ),
        related(
            rel,
            m.moved_iterates(
                directions,
                coords,
                x,
                m.moved_directions(directions, coords, p, r, n),
                n,
            ),
            m.moved_iterates(
                directions,
                coords,
                y,
                m.moved_directions(directions, coords, q, s, n),
                n,
            ),
        ),
{
    let (k, act) = (m.x.len(), m.active.len());
    let size = k + act + directions;
    let (first, second) = (
        m.moved_directions(directions, coords, p, r, n),
        m.moved_directions(directions, coords, q, s, n),
    );
    let zero = zero_vector::<T>(n);
    assert forall|i: int| 0 <= i < act implies rel(
        #[trigger] gather(p, m.active)[i],
        gather(q, m.active)[i],
    ) by {
        assert(rel(p[m.active[i] as int], q[m.active[i] as int]));
    }
    assert forall|i: int| 0 <= i < act implies rel(
        #[trigger] gather(r, m.active)[i],
        gather(s, m.active)[i],
    ) by {
        assert(rel(r[m.active[i] as int], s[m.active[i] as int]));
    }
    assert forall|j: int| 0 <= j < k implies rel(#[trigger] first[j], second[j]) by {
        let old = coords.subrange(j * size + k + act, j * size + k + act + act);
        lemma_accumulate_related(
            rel,
            n,
            zero,
            zero,
            old,
            gather(p, m.active),
            gather(q, m.active),
            act,
        );
        let (a, b) = if m.iteration > 1 && directions > 0 {
            (
                accumulate(zero, old, gather(p, m.active), act),
                accumulate(zero, old, gather(q, m.active), act),
            )
        } else {
            (zero, zero)
        };
        lemma_accumulate_related(
            rel,
            n,
            a,
            b,
            coords.subrange(j * size + k, j * size + k + act),
            gather(r, m.active),
            gather(s, m.active),
            act,
        );
    }
    let all = first_indices(k);
    let (nx, ny) = (
        m.moved_iterates(directions, coords, x, first, n),
        m.moved_iterates(directions, coords, y, second, n),
    );
    assert forall|j: int| 0 <= j < k implies rel(#[trigger] nx[j], ny[j]) by {
        assert forall|i: int| 0 <= i < k implies rel(
            #[trigger] gather(x, all)[i],
            gather(y, all)[i],
        ) by {
            assert(rel(x[i], y[i]));
        }
        let c = coords.subrange(j * size, j * size + k);
        lemma_accumulate_related(rel, n, zero, zero, c, gather(x, all), gather(y, all), k);
        assert(rel(first[j], second[j]));
        assert(rel(
            plus_multiple(accumulate(zero, c, gather(x, all), k), T::unit(), first[j]),
            plus_multiple(accumulate(zero, c, gather(y, all), k), T::unit(), second[j]),
        ));
    }
}

/// The state with which a step leaves a run, where the run goes on or has converged.
pub open spec fn state_of<T: Scalar>(step: StepModel<T>) -> Option<LobpcgModel<T>> {
    match step {
        StepModel::Factor { state, .. } => Some(state),
        StepModel::Pencil { state, .. } => Some(state),
        StepModel::Converged { state } => Some(state),
        _ => None,
    }
}

/// The columns that have not converged are columns, and are those of which that holds.
pub proof fn lemma_unconverged_columns<T: Scalar>(
    lambda: Seq<T>,
    res_norms: Seq<T>,
    tol: T::Wide,
    j: nat,
)
    requires
        j <= usize::MAX,
    ensures
        unconverged_columns(lambda, res_norms, tol, j).len() <= j,
        all_below(unconverged_columns(lambda, res_norms, tol, j), j),
        forall|c: usize|
            c < j ==> (#[trigger] unconverged_columns(lambda, res_norms, tol, j).contains(c)
                <==> unconverged(lambda[c as int], res_norms[c as int], tol)),
    decreases j,
{
    let all = unconverged_columns(lambda, res_norms, tol, j);
    if j > 0 {
        let rest = unconverged_columns(lambda, res_norms, tol, (j - 1) as nat);
        lemma_unconverged_columns(lambda, res_norms, tol, (j - 1) as nat);
        assert forall|c: usize| c < j implies (#[trigger] all.contains(c) <==> unconverged(
            lambda[c as int],
            res_norms[c as int],
            tol,
        )) by {
            if c < j - 1 {
                assert(rest.contains(c) <==> unconverged(
                    lambda[c as int],
                    res_norms[c as int],
                    tol,
                ));
                if rest.contains(c) {
                    let i = rest.index_of(c);
                    assert(all[i] == c);
                }
                if all.contains(c) {
                    let i = all.index_of(c);
                    assert(rest[i] == c);
                }
            } else {
                if unconverged(lambda[c as int], res_norms[c as int], tol) {
                    assert(all[all.len() - 1] == c);
                } else if all.contains(c) {
                    let i = all.index_of(c);
                    assert(rest[i] == c);
                }
            }
        }
    }
}

/// The set is a linear space of vectors of length `n`.
pub open spec fn is_subspace<T: Field>(space: spec_fn(Seq<T>) -> bool, n: nat) -> bool {
    &&& space(zero_vector::<T>(n))
    &&& forall|y: Seq<T>, c: T, v: Seq<T>|
        space(y) && space(v) ==> space(#[trigger] plus_multiple(y, c, v))
}

/// Every column lies in the space.
pub open spec fn all_in<T>(space: spec_fn(Seq<T>) -> bool, block: Seq<Seq<T>>) -> bool {
    forall|j: int| 0 <= j < block.len() ==> space(#[trigger] block[j])
}

/// A run that stays in the space: the iterates and the directions lie in it, and so do the
/// active residuals.
pub open spec fn confined<T: Scalar>(m: LobpcgModel<T>, space: spec_fn(Seq<T>) -> bool) -> bool {
    &&& all_in(space, m.x)
    &&& !(m.stage is InitialBasis || m.stage is InitialRitz) ==> all_in(space, m.p) && (forall|
        i: int,
    |
        0 <= i < m.active.len() ==> space(m.r[#[trigger] m.active[i] as int]))
}

impl<'p, T: Scalar> Lobpcg<'p, T> {
    /// The projector takes every vector into the space.
    pub open spec fn confines(self, space: spec_fn(Seq<T>) -> bool, n: nat) -> bool {
        forall|v: Seq<T>|
            v.len() == n ==> space(#[trigger] self.projected(v)) && space(self.corrected(v))
    }
}

/// A run starts in the space into which the projector takes every vector.
pub proof fn lemma_starts_confined<'p, T: Scalar>(
    solver: Lobpcg<'p, T>,
    initial: Seq<Seq<T>>,
    n: nat,
    space: spec_fn(Seq<T>) -> bool,
)
    requires
        solver.confines(space, n),
        forall|j: int| 0 <= j < initial.len() ==> (#[trigger] initial[j]).len() == n,
    ensures
        state_of(solver.started(initial)) matches Some(m) && confined(m, space),
{
    let m = state_of(solver.started(initial))->0;
    assert forall|j: int| 0 <= j < m.x.len() implies space(#[trigger] m.x[j]) by {
        assert(initial[j].len() == n);
        assert(solver.eliminated(initial[j]).len() == n);
        assert(m.x[j] == solver.projected(solver.eliminated(initial[j])));
    }
}

/// A run never leaves the space into which the projector takes every vector: neither its
/// iterates nor its search directions do, and so no eigenvector that it returns.
pub proof fn lemma_stays_confined<'p, T: Scalar, Op: LinearOperator<T>>(
    solver: Lobpcg<'p, T>,
    a: Op,
    params: EigenParams<T>,
    m: LobpcgModel<T>,
    reply: ReplyModel<T::Wide>,
    k: nat,
    space: spec_fn(Seq<T>) -> bool,
)
    requires
        k <= usize::MAX,
        m.wf(k, a.rows()),
        m.answered_by(reply),
        is_subspace(space, a.rows()),
        solver.confines(space, a.rows()),
        confined(m, space),
    ensures
        state_of(solver.resumed(a, params, m, reply)) matches Some(after) ==> confined(
            after,
            space,
        ),
{
    let n = a.rows();
    let rel = |v: Seq<T>, w: Seq<T>| space(v);
    let all = first_indices(k);
    assert(is_linear(rel, n));
    assert(related(rel, m.x, m.x));
    assert(all_below(all, k));
    lemma_all_related(rel, m.x, m.x, all);
    let step = solver.resumed(a, params, m, reply);
    match m.stage {
        Stage::InitialBasis => {
            if let ReplyModel::Factor(Some(u)) = reply {
                lemma_combined_related(rel, n, m.x, m.x, all, narrowed_all::<T>(u), k);
                let after = state_of(step)->0;
                assert forall|j: int| 0 <= j < after.x.len() implies space(#[trigger] after.x[j]) by {
                    assert(rel(after.x[j], after.x[j]));
                }
            }
        },
        Stage::InitialRitz => {
            if let ReplyModel::Pairs { values, vectors } = reply {
                let coords = transposed(ascending_vectors::<T>(values, vectors), k);
                lemma_combined_related(rel, n, m.x, m.x, all, coords, k);
                lemma_combined_length(m.bx, all, coords, k, n);
                let lambda = ascending_values::<T>(values);
                let (x, ax, bx) = (
                    combined(m.x, all, coords, k, n),
                    combined(m.ax, all, coords, k, n),
                    combined(m.bx, all, coords, k, n),
                );
                let r = Seq::new(k, |j: int| residual(bx[j], ax[j], lambda[j]));
                let next = LobpcgModel {
                    x,
                    ax,
                    bx,
                    r,
                    p: zero_block(k, n),
                    ap: zero_block(k, n),
                    bp: zero_block(k, n),
                    lambda,
                    res_norms: Seq::new(k, |j: int| euclidean(r[j])),
                    ..m
                };
                assert(step == solver.iterated(params, n, next, 1));
                assert forall|j: int| 0 <= j < k implies space(#[trigger] next.x[j]) by {
                    assert(rel(x[j], x[j]));
                }
                lemma_iterated_confined(solver, params, n, next, 1, space);
            }
        },
        Stage::ResidualBasis => {
            if let ReplyModel::Factor(Some(u)) = reply {
                let factor = narrowed_all::<T>(u);
                let s = m.active.len();
                assert(related_at(rel, m.r, m.r, m.active));
                lemma_combined_related(rel, n, m.r, m.r, m.active, factor, s);
                let fresh = combined(m.r, m.active, factor, s, n);
                lemma_scattered_related(rel, m.r, m.r, m.active, fresh, fresh, s);
            }
        },
        Stage::DirectionBasis => {
            if let ReplyModel::Factor(Some(u)) = reply {
                let factor = narrowed_all::<T>(u);
                let s = m.active.len();
                assert(related(rel, m.p, m.p));
                lemma_all_related(rel, m.p, m.p, m.active);
                lemma_combined_related(rel, n, m.p, m.p, m.active, factor, s);
                let fresh = combined(m.p, m.active, factor, s, n);
                lemma_scattered_related(rel, m.p, m.p, m.active, fresh, fresh, s);
                let after = state_of(step)->0;
                assert forall|j: int| 0 <= j < after.p.len() implies space(#[trigger] after.p[j]) by {
                    assert(rel(after.p[j], after.p[j]));
                }
            }
        },
        Stage::Ritz { directions } => {
            if let ReplyModel::Pairs { values, vectors } = reply {
                let theta = kept_values(ascending_values::<T>(values), k, params.which);
                let coords = kept_coords(
                    ascending_vectors::<T>(values, vectors),
                    values.len(),
                    k,
                    params.which,
                );
                let next = m.moved(directions as nat, theta, coords, n);
                assert(related(rel, m.p, m.p));
                lemma_all_related(rel, m.p, m.p, m.active);
                lemma_moved_related(
                    rel,
                    n,
                    m,
                    directions as nat,
                    coords,
                    m.x,
                    m.x,
                    m.p,
                    m.p,
                    m.r,
                    m.r,
                );
                assert forall|j: int| 0 <= j < next.x.len() implies space(#[trigger] next.x[j]) by {
                    assert(rel(next.x[j], next.x[j]));
                }
                assert forall|j: int| 0 <= j < next.p.len() implies space(#[trigger] next.p[j]) by {
                    assert(rel(next.p[j], next.p[j]));
                }
                lemma_moved_lengths(m, directions as nat, theta, coords, k, n);
                lemma_iterated_confined(solver, params, n, next, m.iteration + 1, space);
            }
        },
    }
}

/// Combined columns have the length that was asked for.
proof fn lemma_combined_length<T: Field>(
    y: Seq<Seq<T>>,
    rows: Seq<usize>,
    r: Seq<T>,
    w: nat,
    n: nat,
)
    ensures
        forall|j: int| 0 <= j < w ==> (#[trigger] combined(y, rows, r, w, n)[j]).len() == n,
{
    assert forall|j: int| 0 <= j < w implies (#[trigger] combined(y, rows, r, w, n)[j]).len()
        == n by {
        super::block::lemma_accumulate_length(
            zero_vector::<T>(n),
            matrix_column(r, rows.len(), w, j),
            gather(y, rows),
            rows.len(),
        );
    }
}

/// After a Rayleigh–Ritz step the residuals are columns of the right length.
proof fn lemma_moved_lengths<T: Scalar>(
    m: LobpcgModel<T>,
    directions: nat,
    values: Seq<T>,
    coords: Seq<T>,
    k: nat,
    n: nat,
)
    requires
        k <= usize::MAX,
        m.stage is Ritz,
        m.wf(k, n),
    ensures
        m.moved(directions, values, coords, n).r.len() == k,
        forall|j: int|
            0 <= j < k ==> (#[trigger] m.moved(directions, values, coords, n).r[j]).len() == n,
{
    let next = m.moved(directions, values, coords, n);
    let len = |v: Seq<T>, w: Seq<T>| v.len() == n;
    let fresh = Seq::new(
        m.active.len(),
        |i: int|
            residual(
                next.bx[m.active[i] as int],
                next.ax[m.active[i] as int],
                next.lambda[m.active[i] as int],
            ),
    );
    let size = k + m.active.len() + directions;
    assert forall|i: int| 0 <= i < m.active.len() implies len(#[trigger] fresh[i], fresh[i]) by {
        let j = m.active[i] as int;
        assert(m.active[i] < k);
        super::block::lemma_accumulate_length(
            zero_vector::<T>(n),
            coords.subrange(j * size, j * size + k),
            gather(m.bx, first_indices(k)),
            k,
        );
    }
    assert(related(len, m.r, m.r));
    lemma_scattered_related(len, m.r, m.r, m.active, fresh, fresh, m.active.len());
    assert forall|j: int| 0 <= j < k implies (#[trigger] next.r[j]).len() == n by {
        assert(len(next.r[j], next.r[j]));
    }
}

/// The beginning of an iteration keeps a run in the space.
proof fn lemma_iterated_confined<'p, T: Scalar>(
    solver: Lobpcg<'p, T>,
    params: EigenParams<T>,
    n: nat,
    m: LobpcgModel<T>,
    it: nat,
    space: spec_fn(Seq<T>) -> bool,
)
    requires
        m.x.len() <= usize::MAX,
        m.r.len() == m.x.len(),
        forall|j: int| 0 <= j < m.r.len() ==> (#[trigger] m.r[j]).len() == n,
        is_subspace(space, n),
        solver.confines(space, n),
        all_in(space, m.x),
        all_in(space, m.p),
    ensures
        state_of(solver.iterated(params, n, m, it)) matches Some(after) ==> confined(after, space),
{
    let k = m.x.len();
    let tol = Lobpcg::<'p, T>::tolerance(params);
    let active = unconverged_columns(m.lambda, m.res_norms, tol, k);
    lemma_unconverged_columns(m.lambda, m.res_norms, tol, k);
    if it <= params.max_iter && active.len() > 0 {
        let rel = |v: Seq<T>, w: Seq<T>| space(v);
        let fresh = mapped(m.r, active, |v: Seq<T>| solver.corrected(v));
        assert forall|i: int| 0 <= i < active.len() implies rel(#[trigger] fresh[i], fresh[i]) by {
            let v = m.r[active[i] as int];
            assert(active[i] < k);
            assert(v.len() == n);
            assert(space(solver.projected(v)) && space(solver.corrected(v)));
        }
        lemma_scattered_related(rel, m.r, m.r, active, fresh, fresh, active.len());
        let after = state_of(solver.iterated(params, n, m, it))->0;
        assert forall|i: int| 0 <= i < active.len() implies space(
            after.r[#[trigger] active[i] as int],
        ) by {
            assert(rel(after.r[active[i] as int], after.r[active[i] as int]));
        }
    }
}

/// The second of two vectors is the image of the first, which has `n` entries.
pub open spec fn image_pairs<T>(image: spec_fn(Seq<T>) -> Seq<T>, n: nat) -> spec_fn(
    Seq<T>,
    Seq<T>,
) -> bool {
    |v: Seq<T>, w: Seq<T>| v.len() == n && w == image(v)
}

/// The operator maps sums of vectors with `n` entries to sums, and multiples to multiples.
pub open spec fn acts_linearly<T: Field>(image: spec_fn(Seq<T>) -> Seq<T>, n: nat) -> bool {
    is_linear(image_pairs(image, n), n)
}

/// The blocks that a run carries along are the images of its iterates, its directions and its
/// active residuals under the two operators, which act on vectors with `n` entries.
pub open spec fn tracks<T: Scalar>(
    m: LobpcgModel<T>,
    a: spec_fn(Seq<T>) -> Seq<T>,
    b: spec_fn(Seq<T>) -> Seq<T>,
    n: nat,
) -> bool {
    let under_a = image_pairs(a, n);
    let under_b = image_pairs(b, n);
    &&& related(under_b, m.x, m.bx)
    &&& !(m.stage is InitialBasis) ==> related(under_a, m.x, m.ax)
    &&& !(m.stage is InitialBasis || m.stage is InitialRitz) ==> {
        &&& related(under_a, m.p, m.ap)
        &&& related(under_b, m.p, m.bp)
        &&& related_at(under_b, m.r, m.br, m.active)
    }
    &&& m.stage is DirectionBasis || m.stage is Ritz ==> related_at(under_a, m.r, m.ar, m.active)
}

/// A column that was replaced by its image is that image.
proof fn lemma_scattered_mapped<T>(
    block: Seq<Seq<T>>,
    rows: Seq<usize>,
    from: Seq<Seq<T>>,
    f: spec_fn(Seq<T>) -> Seq<T>,
    m: nat,
)
    requires
        m <= rows.len(),
        all_below(rows, block.len()),
    ensures
        scattered(block, rows, mapped(from, rows, f), m).len() == block.len(),
        forall|i: int|
            0 <= i < m ==> scattered(block, rows, mapped(from, rows, f), m)[
            #[trigger] rows[i] as int] == f(from[rows[i] as int]),
    decreases m,
{
    if m > 0 {
        lemma_scattered_mapped(block, rows, from, f, (m - 1) as nat);
    }
}

/// A run starts with the images of its iterates under `B`.
pub proof fn lemma_starts_tracking<'p, T: Scalar, Op: LinearOperator<T>>(
    solver: Lobpcg<'p, T>,
    a: Op,
    initial: Seq<Seq<T>>,
    k: nat,
)
    requires
        state_of(solver.started(initial)) matches Some(m) && m.wf(k, a.rows()),
    ensures
        state_of(solver.started(initial)) matches Some(m) && tracks(
            m,
            |v: Seq<T>| a.image(v),
            |v: Seq<T>| solver.b_image(v),
            a.rows(),
        ),
{
}

impl<'p, T: Scalar> Lobpcg<'p, T> {
    /// Preconditioning and projecting keep the length of a vector with `n` entries.
    pub open spec fn keeps_length(self, n: nat) -> bool {
        forall|v: Seq<T>| v.len() == n ==> (#[trigger] self.corrected(v)).len() == n
    }
}

/// Where the operators act linearly, a run always carries the images of its iterates and
/// directions, although it applies the operators to the residuals only.
pub proof fn lemma_keeps_tracking<'p, T: Scalar, Op: LinearOperator<T>>(
    solver: Lobpcg<'p, T>,
    a: Op,
    params: EigenParams<T>,
    m: LobpcgModel<T>,
    reply: ReplyModel<T::Wide>,
    k: nat,
)
    requires
        k <= usize::MAX,
        m.wf(k, a.rows()),
        m.answered_by(reply),
        solver.keeps_length(a.rows()),
        acts_linearly(|v: Seq<T>| a.image(v), a.rows()),
        acts_linearly(|v: Seq<T>| solver.b_image(v), a.rows()),
        tracks(m, |v: Seq<T>| a.image(v), |v: Seq<T>| solver.b_image(v), a.rows()),
    ensures
        state_of(solver.resumed(a, params, m, reply)) matches Some(after) ==> tracks(
            after,
            |v: Seq<T>| a.image(v),
            |v: Seq<T>| solver.b_image(v),
            a.rows(),
        ),
{
    let n = a.rows();
    let fa = |v: Seq<T>| a.image(v);
    let fb = |v: Seq<T>| solver.b_image(v);
    let under_a = image_pairs(fa, n);
    let under_b = image_pairs(fb, n);
    let all = first_indices(k);
    let s = m.active.len();
    let step = solver.resumed(a, params, m, reply);
    assert(is_linear(under_a, n) && is_linear(under_b, n));
    lemma_all_related(under_b, m.x, m.bx, all);
    match m.stage {
        Stage::InitialBasis => {
            if let ReplyModel::Factor(Some(u)) = reply {
                lemma_combined_related(under_b, n, m.x, m.bx, all, narrowed_all::<T>(u), k);
                assert(tracks(state_of(step)->0, fa, fb, n));
            }
        },
        Stage::InitialRitz => {
            if let ReplyModel::Pairs { values, vectors } = reply {
                let coords = transposed(ascending_vectors::<T>(values, vectors), k);
                lemma_all_related(under_a, m.x, m.ax, all);
                lemma_combined_related(under_a, n, m.x, m.ax, all, coords, k);
                lemma_combined_related(under_b, n, m.x, m.bx, all, coords, k);
                let lambda = ascending_values::<T>(values);
                let (x, ax, bx) = (
                    combined(m.x, all, coords, k, n),
                    combined(m.ax, all, coords, k, n),
                    combined(m.bx, all, coords, k, n),
                );
                let r = Seq::new(k, |j: int| residual(bx[j], ax[j], lambda[j]));
                let next = LobpcgModel {
                    x,
                    ax,
                    bx,
                    r,
                    p: zero_block(k, n),
                    ap: zero_block(k, n),
                    bp: zero_block(k, n),
                    lambda,
                    res_norms: Seq::new(k, |j: int| euclidean(r[j])),
                    ..m
                };
                assert(step == solver.iterated(params, n, next, 1));
                lemma_combined_length(m.bx, all, coords, k, n);
                let zero = zero_vector::<T>(n);
                assert(under_a(zero, zero) && under_b(zero, zero));
                assert(related(under_a, next.p, next.ap));
                assert(related(under_b, next.p, next.bp));
                lemma_iterated_tracks(solver, params, n, next, 1, fa);
            }
        },
        Stage::ResidualBasis => {
            if let ReplyModel::Factor(Some(u)) = reply {
                let factor = narrowed_all::<T>(u);
                lemma_combined_related(under_b, n, m.r, m.br, m.active, factor, s);
                let (v, w) = (
                    combined(m.r, m.active, factor, s, n),
                    combined(m.br, m.active, factor, s, n),
                );
                lemma_scattered_related(under_b, m.r, m.br, m.active, v, w, s);
                let r = scattered(m.r, m.active, v, s);
                lemma_scattered_mapped(zero_block::<T>(k, n), m.active, r, fa, s);
                assert(tracks(state_of(step)->0, fa, fb, n));
            }
        },
        Stage::DirectionBasis => {
            match reply {
                ReplyModel::Factor(Some(u)) => {
                    let factor = narrowed_all::<T>(u);
                    lemma_all_related(under_a, m.p, m.ap, m.active);
                    lemma_all_related(under_b, m.p, m.bp, m.active);
                    lemma_combined_related(under_a, n, m.p, m.ap, m.active, factor, s);
                    lemma_combined_related(under_b, n, m.p, m.bp, m.active, factor, s);
                    let (p, ap, bp) = (
                        combined(m.p, m.active, factor, s, n),
                        combined(m.ap, m.active, factor, s, n),
                        combined(m.bp, m.active, factor, s, n),
                    );
                    lemma_scattered_related(under_a, m.p, m.ap, m.active, p, ap, s);
                    lemma_scattered_related(under_b, m.p, m.bp, m.active, p, bp, s);
                },
                _ => {},
            }
            assert(tracks(state_of(step)->0, fa, fb, n));
        },
        Stage::Ritz { directions } => {
            if let ReplyModel::Pairs { values, vectors } = reply {
                let theta = kept_values(ascending_values::<T>(values), k, params.which);
                let coords = kept_coords(
                    ascending_vectors::<T>(values, vectors),
                    values.len(),
                    k,
                    params.which,
                );
                let next = m.moved(directions as nat, theta, coords, n);
                let d = directions as nat;
                lemma_all_related(under_a, m.p, m.ap, m.active);
                lemma_all_related(under_b, m.p, m.bp, m.active);
                lemma_moved_related(
                    under_a,
                    n,
                    m,
                    d,
                    coords,
                    m.x,
                    m.ax,
                    m.p,
                    m.ap,
                    m.r,
                    m.ar,
                );
                lemma_moved_related(
                    under_b,
                    n,
                    m,
                    d,
                    coords,
                    m.x,
                    m.bx,
                    m.p,
                    m.bp,
                    m.r,
                    m.br,
                );
                lemma_moved_lengths(m, d, theta, coords, k, n);
                lemma_iterated_tracks(solver, params, n, next, m.iteration + 1, fa);
            }
        },
    }
}

/// The beginning of an iteration keeps the images.
proof fn lemma_iterated_tracks<'p, T: Scalar>(
    solver: Lobpcg<'p, T>,
    params: EigenParams<T>,
    n: nat,
    m: LobpcgModel<T>,
    it: nat,
    fa: spec_fn(Seq<T>) -> Seq<T>,
)
    requires
        m.x.len() <= usize::MAX,
        m.r.len() == m.x.len(),
        forall|j: int| 0 <= j < m.r.len() ==> (#[trigger] m.r[j]).len() == n,
        m.stage is InitialRitz || m.stage is Ritz,
        solver.keeps_length(n),
        related(image_pairs(fa, n), m.x, m.ax),
        related(image_pairs(|v: Seq<T>| solver.b_image(v), n), m.x, m.bx),
        related(image_pairs(fa, n), m.p, m.ap),
        related(image_pairs(|v: Seq<T>| solver.b_image(v), n), m.p, m.bp),
    ensures
        state_of(solver.iterated(params, n, m, it)) matches Some(after) ==> tracks(
            after,
            fa,
            |v: Seq<T>| solver.b_image(v),
            n,
        ),
{
    let k = m.x.len();
    let fb = |v: Seq<T>| solver.b_image(v);
    let under_a = image_pairs(fa, n);
    let under_b = image_pairs(fb, n);
    let tol = Lobpcg::<'p, T>::tolerance(params);
    let active = unconverged_columns(m.lambda, m.res_norms, tol, k);
    lemma_unconverged_columns(m.lambda, m.res_norms, tol, k);
    if it <= params.max_iter {
        let after = state_of(solver.iterated(params, n, m, it))->0;
        if active.len() > 0 {
            let s = active.len();
            let fc = |v: Seq<T>| solver.corrected(v);
            let r = scattered(m.r, active, mapped(m.r, active, fc), s);
            lemma_scattered_mapped(m.r, active, m.r, fc, s);
            lemma_scattered_mapped(zero_block::<T>(k, n), active, r, fb, s);
            assert forall|i: int| 0 <= i < s implies under_b(
                after.r[#[trigger] active[i] as int],
                after.br[active[i] as int],
            ) by {
                assert(m.r[active[i] as int].len() == n);
                assert(solver.corrected(m.r[active[i] as int]).len() == n);
            }
        } else {
            assert(after.active.len() == 0);
        }
        assert(tracks(after, fa, fb, n));
    }
}

/// Soft locking: a Rayleigh–Ritz step leaves the residual of a converged column, and its norm, as
/// they were.
pub proof fn lemma_locked_residuals<T: Scalar>(
    m: LobpcgModel<T>,
    directions: nat,
    values: Seq<T>,
    coords: Seq<T>,
    k: nat,
    n: nat,
    j: int,
)
    requires
        m.stage is Ritz,
        m.wf(k, n),
        0 <= j < k,
        !m.active.contains(j as usize),
        k <= usize::MAX,
    ensures
        m.moved(directions, values, coords, n).r[j] == m.r[j],
        m.moved(directions, values, coords, n).res_norms[j] == m.res_norms[j],
{
    let next = m.moved(directions, values, coords, n);
    let fresh = Seq::new(
        m.active.len(),
        |i: int|
            residual(
                next.bx[m.active[i] as int],
                next.ax[m.active[i] as int],
                next.lambda[m.active[i] as int],
            ),
    );
    lemma_scattered_elsewhere(m.r, m.active, fresh, m.active.len(), j);
    let norms = Seq::new(m.active.len(), |i: int| euclidean(fresh[i]));
    lemma_scattered_elsewhere(m.res_norms, m.active, norms, m.active.len(), j);
}

/// A Rayleigh–Ritz step gives every active column the residual `λ·Bx − Ax` of its new iterate, and
/// its norm.
pub proof fn lemma_fresh_residuals<T: Scalar>(
    m: LobpcgModel<T>,
    directions: nat,
    values: Seq<T>,
    coords: Seq<T>,
    k: nat,
    n: nat,
    i: int,
)
    requires
        m.stage is Ritz,
        m.wf(k, n),
        0 <= i < m.active.len(),
    ensures
        ({
            let next = m.moved(directions, values, coords, n);
            let j = m.active[i] as int;
            &&& next.r[j] == residual(next.bx[j], next.ax[j], next.lambda[j])
            &&& next.res_norms[j] == euclidean(next.r[j])
        }),
{
    let next = m.moved(directions, values, coords, n);
    let fresh = Seq::new(
        m.active.len(),
        |i: int|
            residual(
                next.bx[m.active[i] as int],
                next.ax[m.active[i] as int],
                next.lambda[m.active[i] as int],
            ),
    );
    let norms = Seq::new(m.active.len(), |i: int| euclidean(fresh[i]));
    lemma_scattered_fresh(m.r, m.active, next.bx, next.ax, next.lambda, m.active.len());
    assert(mapped_residuals(m.active, next.bx, next.ax, next.lambda) =~= fresh);
    lemma_scattered_norms(m.res_norms, m.active, next.bx, next.ax, next.lambda, m.active.len());
    assert(Seq::new(
        m.active.len(),
        |i: int| euclidean(mapped_residuals(m.active, next.bx, next.ax, next.lambda)[i]),
    ) =~= norms);
}

/// The residuals of the listed columns.
spec fn mapped_residuals<T: Scalar>(
    rows: Seq<usize>,
    bx: Seq<Seq<T>>,
    ax: Seq<Seq<T>>,
    lambda: Seq<T>,
) -> Seq<Seq<T>> {
    Seq::new(
        rows.len(),
        |i: int| residual(bx[rows[i] as int], ax[rows[i] as int], lambda[rows[i] as int]),
    )
}

proof fn lemma_scattered_fresh<T: Scalar>(
    block: Seq<Seq<T>>,
    rows: Seq<usize>,
    bx: Seq<Seq<T>>,
    ax: Seq<Seq<T>>,
    lambda: Seq<T>,
    m: nat,
)
    requires
        m <= rows.len(),
        all_below(rows, block.len()),
    ensures
        scattered(block, rows, mapped_residuals(rows, bx, ax, lambda), m).len() == block.len(),
        forall|i: int|
            0 <= i < m ==> scattered(block, rows, mapped_residuals(rows, bx, ax, lambda), m)[
            #[trigger] rows[i] as int] == residual(
                bx[rows[i] as int],
                ax[rows[i] as int],
                lambda[rows[i] as int],
            ),
    decreases m,
{
    if m > 0 {
        lemma_scattered_fresh(block, rows, bx, ax, lambda, (m - 1) as nat);
    }
}

proof fn lemma_scattered_norms<T: Scalar>(
    block: Seq<T>,
    rows: Seq<usize>,
    bx: Seq<Seq<T>>,
    ax: Seq<Seq<T>>,
    lambda: Seq<T>,
    m: nat,
)
    requires
        m <= rows.len(),
        all_below(rows, block.len()),
    ensures
        ({
            let norms = Seq::new(
                rows.len(),
                |i: int| euclidean(mapped_residuals(rows, bx, ax, lambda)[i]),
            );
            &&& scattered(block, rows, norms, m).len() == block.len()
            &&& forall|i: int|
                0 <= i < m ==> scattered(block, rows, norms, m)[#[trigger] rows[i] as int]
                    == euclidean(
                    residual(bx[rows[i] as int], ax[rows[i] as int], lambda[rows[i] as int]),
                )
        }),
    decreases m,
{
    if m > 0 {
        lemma_scattered_norms(block, rows, bx, ax, lambda, (m - 1) as nat);
    }
}

/// A run ends in success only where every column has converged, within the iteration limit.
pub proof fn lemma_converged<'p, T: Scalar, Op: LinearOperator<T>>(
    solver: Lobpcg<'p, T>,
    a: Op,
    params: EigenParams<T>,
    m: LobpcgModel<T>,
    reply: ReplyModel<T::Wide>,
    k: nat,
)
    requires
        k <= usize::MAX,
        m.wf(k, a.rows()),
        m.answered_by(reply),
    ensures
        solver.resumed(a, params, m, reply) matches StepModel::Converged { state } ==> {
            &&& 1 <= state.iteration <= params.max_iter
            &&& state.x.len() == k
            &&& forall|j: int|
                0 <= j < k ==> !(#[trigger] unconverged(
                    state.lambda[j],
                    state.res_norms[j],
                    Lobpcg::<'p, T>::tolerance(params),
                ))
        },
{
    let step = solver.resumed(a, params, m, reply);
    if let StepModel::Converged { state } = step {
        let tol = Lobpcg::<'p, T>::tolerance(params);
        lemma_unconverged_columns(state.lambda, state.res_norms, tol, k);
        let active = unconverged_columns(state.lambda, state.res_norms, tol, k);
        assert(active.len() == 0);
        assert forall|j: int| 0 <= j < k implies !(#[trigger] unconverged(
            state.lambda[j],
            state.res_norms[j],
            tol,
        )) by {
            assert(!active.contains(j as usize));
        }
    }
}

/// A run breaks down exactly where a decomposition that it needs does not exist. The one that
/// orthonormalises the directions is not needed.
pub proof fn lemma_breaks_down<'p, T: Scalar, Op: LinearOperator<T>>(
    solver: Lobpcg<'p, T>,
    a: Op,
    params: EigenParams<T>,
    m: LobpcgModel<T>,
    reply: ReplyModel<T::Wide>,
)
    requires
        m.answered_by(reply),
    ensures
        (solver.resumed(a, params, m, reply) is Broken) <==> (reply is NotPositiveDefinite
            || reply is SingularFactor || (reply == ReplyModel::<T::Wide>::Factor(None)
            && !(m.stage is DirectionBasis))),
{
}

/// How many more replies a waiting run can take.
pub open spec fn replies_left<T: Scalar>(m: LobpcgModel<T>, max_iter: int) -> int {
    match m.stage {
        Stage::InitialBasis => 3 * max_iter + 2,
        Stage::InitialRitz => 3 * max_iter + 1,
        Stage::ResidualBasis => 3 * (max_iter - m.iteration) + 3,
        Stage::DirectionBasis => 3 * (max_iter - m.iteration) + 2,
        Stage::Ritz { .. } => 3 * (max_iter - m.iteration) + 1,
    }
}

/// An iteration that has begun does not exceed the limit.
pub open spec fn within_limit<T: Scalar>(m: LobpcgModel<T>, max_iter: int) -> bool {
    !(m.stage is InitialBasis || m.stage is InitialRitz) ==> m.iteration <= max_iter
}

/// Every run ends: each reply leaves fewer to come.
pub proof fn lemma_run_ends<'p, T: Scalar, Op: LinearOperator<T>>(
    solver: Lobpcg<'p, T>,
    a: Op,
    params: EigenParams<T>,
    m: LobpcgModel<T>,
    reply: ReplyModel<T::Wide>,
)
    requires
        m.answered_by(reply),
        within_limit(m, params.max_iter as int),
    ensures
        match solver.resumed(a, params, m, reply) {
            StepModel::Factor { state, .. } | StepModel::Pencil { state, .. } => {
                &&& within_limit(state, params.max_iter as int)
                &&& 1 <= replies_left(state, params.max_iter as int) < replies_left(
                    m,
                    params.max_iter as int,
                )
            },
            _ => true,
        },
{
}

/// A matrix is its own transpose.
pub open spec fn is_symmetric<A>(matrix: Seq<A>, size: nat) -> bool {
    forall|i: int, j: int|
        0 <= i < size && 0 <= j < size ==> #[trigger] matrix[i * size + j] == matrix[j * size + i]
}

/// The pencils whose eigenpairs a run asks for are symmetric.
pub proof fn lemma_pencils_symmetric<'p, T: Scalar, Op: LinearOperator<T>>(
    solver: Lobpcg<'p, T>,
    a: Op,
    params: EigenParams<T>,
    m: LobpcgModel<T>,
    reply: ReplyModel<T::Wide>,
)
    ensures
        solver.resumed(a, params, m, reply) matches StepModel::Pencil { a: ga, b: gb, size, .. }
            ==> is_symmetric(ga, size) && is_symmetric(gb, size) && ga.len() == size * size
            && gb.len() == size * size,
{
    if let StepModel::Pencil { state, a: ga, b: gb, size } = solver.resumed(a, params, m, reply) {
        assert forall|i: int, j: int| 0 <= i < size && 0 <= j < size implies #[trigger] ga[i * size
            + j] == ga[j * size + i] by {
            lemma_position(i, j, size as int, size as int);
            lemma_position(j, i, size as int, size as int);
        }
        assert forall|i: int, j: int| 0 <= i < size && 0 <= j < size implies #[trigger] gb[i * size
            + j] == gb[j * size + i] by {
            lemma_position(i, j, size as int, size as int);
            lemma_position(j, i, size as int, size as int);
        }
    }
}

/// In exact arithmetic a square sparse matrix acts linearly.
pub proof fn lemma_sparse_acts_linearly<T: Field>(rows: Seq<Seq<(usize, T)>>)
    requires
        is_ring::<T>(),
        forall|r: int| 0 <= r < rows.len() ==> within(#[trigger] rows[r], rows.len()),
    ensures
        acts_linearly(|v: Seq<T>| product(rows, v), rows.len()),
{
    let n = rows.len();
    let image = |v: Seq<T>| product(rows, v);
    let rel = image_pairs(image, n);
    let zero = zero_vector::<T>(n);
    assert forall|r: int| 0 <= r < n implies product(rows, zero)[r] == T::nought() by {
        lemma_row_of_nought(rows[r], n, rows[r].len());
    }
    assert(product(rows, zero) =~= zero);
    assert(rel(zero, zero));
    assert forall|y: Seq<T>, z: Seq<T>, c: T, v: Seq<T>, w: Seq<T>|
        #![trigger plus_multiple(y, c, v), plus_multiple(z, c, w)]
        rel(y, z) && rel(v, w) implies rel(plus_multiple(y, c, v), plus_multiple(z, c, w)) by {
        let sum = plus_multiple(y, c, v);
        assert forall|r: int| 0 <= r < n implies product(rows, sum)[r] == plus_multiple(
            z,
            c,
            w,
        )[r] by {
            lemma_row_of_sum(rows[r], y, c, v, rows[r].len());
        }
        assert(product(rows, sum) =~= plus_multiple(z, c, w));
    }
}

proof fn lemma_row_of_nought<T: Field>(row: Seq<(usize, T)>, n: nat, m: nat)
    requires
        is_ring::<T>(),
        within(row, n),
        m <= row.len(),
    ensures
        row_product(row, zero_vector::<T>(n), m) == T::nought(),
    decreases m,
{
    if m > 0 {
        lemma_row_of_nought(row, n, (m - 1) as nat);
        lemma_times_nought(row[m - 1].1);
        lemma_ring(T::nought(), T::nought(), T::nought());
    }
}

proof fn lemma_row_of_sum<T: Field>(row: Seq<(usize, T)>, y: Seq<T>, c: T, v: Seq<T>, m: nat)
    requires
        is_ring::<T>(),
        within(row, y.len()),
        y.len() == v.len(),
        m <= row.len(),
    ensures
        row_product(row, plus_multiple(y, c, v), m) == row_product(row, y, m).plus(
            c.times(row_product(row, v, m)),
        ),
    decreases m,
{
    if m == 0 {
        lemma_times_nought(c);
        lemma_ring(T::nought(), T::nought(), T::nought());
    } else {
        let less = (m - 1) as nat;
        lemma_row_of_sum(row, y, c, v, less);
        let (at, a) = (row[m - 1].0 as int, row[m - 1].1);
        let (sy, sv) = (row_product(row, y, less), row_product(row, v, less));
        // a·(y + c·v) = a·y + c·(a·v)
        lemma_ring(a, y[at], c.times(v[at]));
        lemma_ring(a, c, v[at]);
        lemma_ring(c, a, v[at]);
        lemma_plus_plus(sy, c.times(sv), a.times(y[at]), c.times(a.times(v[at])));
        lemma_ring(c, sv, a.times(v[at]));
    }
}

} // verus!
