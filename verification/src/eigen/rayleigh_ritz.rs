//! What the Rayleigh–Ritz steps of a LOBPCG run are for, in exact arithmetic: where the replies are
//! the decompositions that were asked for, the iterates stay orthonormal with respect to `B`, and
//! `A` stays diagonal on them, with the Ritz values on the diagonal.
use super::block::{
    accumulate, all_below, combined, first_indices, gram, matrix_column, mirrored, residual,
    scattered, transposed,
};
use super::dense::{ascending_values, ascending_vectors};
use super::invariants::{
    acts_linearly, image_pairs, lemma_all_related, lemma_keeps_tracking, lemma_unconverged_columns,
    related, state_of, tracks,
};
use super::lobpcg::{
    first_kept, kept_coords, kept_values, lemma_sorted_values, symmetric, unconverged_columns,
    zero_block, Lobpcg, LobpcgModel, ReplyModel, Stage, StepModel,
};
use super::orthonormal::{congruent_entry, lemma_gram_combined};
use super::{EigenParams, EigenWhich};
use crate::exact::{is_ring, lemma_ring, lemma_total_parts, lemma_total_same, total};
use crate::index::lemma_position;
use crate::operator::LinearOperator;
use crate::order::{gather, lemma_sorting_exists, sorting, totally_ordered};
use crate::scalar::{narrowed_all, wide_or, widened_all, Field, Real, Scalar};
use crate::vector::{dot_product, euclidean, zero_vector};
use vstd::prelude::*;

verus! {

/// One on the diagonal, zero elsewhere.
pub open spec fn identity_entry<T: Field>(i: int, j: int) -> T {
    if i == j {
        T::unit()
    } else {
        T::nought()
    }
}

/// The given numbers on the diagonal, zero elsewhere.
pub open spec fn diagonal_entry<T: Field>(values: Seq<T>, i: int, j: int) -> T {
    if i == j {
        values[i]
    } else {
        T::nought()
    }
}

/// The products of the columns of `x` with those of `y` make up the identity.
pub open spec fn orthonormal<T: Field>(x: Seq<Seq<T>>, y: Seq<Seq<T>>) -> bool {
    forall|i: int, j: int|
        0 <= i < x.len() && 0 <= j < x.len() ==> #[trigger] dot_product(x[i], y[j])
            == identity_entry::<T>(i, j)
}

/// The products of the listed columns of `x` with those of `y` make up the identity.
pub open spec fn orthonormal_at<T: Field>(
    x: Seq<Seq<T>>,
    y: Seq<Seq<T>>,
    rows: Seq<usize>,
) -> bool {
    forall|i: int, j: int|
        0 <= i < rows.len() && 0 <= j < rows.len() ==> #[trigger] dot_product(
            x[rows[i] as int],
            y[rows[j] as int],
        ) == identity_entry::<T>(i, j)
}

/// The products of the columns of `x` with those of `y` make up a diagonal matrix.
pub open spec fn diagonal_on<T: Field>(x: Seq<Seq<T>>, y: Seq<Seq<T>>, values: Seq<T>) -> bool {
    forall|i: int, j: int|
        0 <= i < x.len() && 0 <= j < x.len() ==> #[trigger] dot_product(x[i], y[j])
            == diagonal_entry(values, i, j)
}

/// `Rᵀ·G·R` is the identity.
pub open spec fn turns_into_identity<T: Field>(r: Seq<T>, g: Seq<T>, w: nat) -> bool {
    forall|i: int, j: int|
        0 <= i < w && 0 <= j < w ==> #[trigger] congruent_entry(r, g, w, i, j)
            == identity_entry::<T>(i, j)
}

/// `Rᵀ·G·R` is diagonal, with the given numbers on the diagonal.
pub open spec fn turns_into_diagonal<T: Field>(
    r: Seq<T>,
    g: Seq<T>,
    values: Seq<T>,
    w: nat,
) -> bool {
    forall|i: int, j: int|
        0 <= i < w && 0 <= j < w ==> #[trigger] congruent_entry(r, g, w, i, j) == diagonal_entry(
            values,
            i,
            j,
        )
}

/// The eigenpairs of a reply are those of the pencil with the matrices `ga` and `gb`.
pub open spec fn solves_pencil<T: Scalar>(
    values: Seq<T::Wide>,
    vectors: Seq<T::Wide>,
    ga: Seq<T>,
    gb: Seq<T>,
    size: nat,
) -> bool {
    let r = transposed(ascending_vectors::<T>(values, vectors), size);
    &&& turns_into_identity(r, gb, size)
    &&& turns_into_diagonal(r, ga, ascending_values::<T>(values), size)
}

/// The Gram matrix of `A` on the search space, as it is handed out.
pub open spec fn handed_out_a<T: Scalar>(m: LobpcgModel<T>, size: nat) -> Seq<T> {
    symmetric(|i: int, j: int| m.gram_a(i, j), size)
}

/// The Gram matrix of `B` on the search space, as it is handed out.
pub open spec fn handed_out_b<T: Scalar>(m: LobpcgModel<T>, size: nat) -> Seq<T> {
    symmetric(|i: int, j: int| m.gram_b(i, j), size)
}

/// Two matrices with `w` rows and columns have the same entries.
pub open spec fn same_matrix<T>(g: Seq<T>, h: Seq<T>, w: nat) -> bool {
    forall|a: int, b: int| 0 <= a < w && 0 <= b < w ==> #[trigger] g[a * w + b] == h[a * w + b]
}

/// The reply is the decomposition of the matrix or the pencil that the run has handed out.
pub open spec fn solves_request<T: Scalar>(
    m: LobpcgModel<T>,
    reply: ReplyModel<T::Wide>,
) -> bool {
    let all = first_indices(m.x.len());
    match reply {
        ReplyModel::Factor(Some(u)) => turns_into_identity(
            narrowed_all::<T>(u),
            match m.stage {
                Stage::InitialBasis => gram(m.x, m.bx, all, all),
                Stage::ResidualBasis => gram(m.r, m.br, m.active, m.active),
                _ => gram(m.p, m.bp, m.active, m.active),
            },
            m.request_size(),
        ),
        ReplyModel::Pairs { values, vectors } => {
            let size = m.request_size();
            if m.stage is InitialRitz {
                solves_pencil(
                    values,
                    vectors,
                    mirrored(gram(m.x, m.ax, all, all), size),
                    mirrored(gram(m.x, m.bx, all, all), size),
                    size,
                )
            } else {
                solves_pencil(
                    values,
                    vectors,
                    handed_out_a(m, size),
                    handed_out_b(m, size),
                    size,
                )
            }
        },
        _ => true,
    }
}

/// The operator is symmetric on vectors with `n` entries.
pub open spec fn is_symmetric_on<T: Field>(image: spec_fn(Seq<T>) -> Seq<T>, n: nat) -> bool {
    forall|u: Seq<T>, v: Seq<T>|
        u.len() == n && v.len() == n ==> #[trigger] dot_product(u, image(v)) == dot_product(
            v,
            image(u),
        )
}

/// No entry is listed twice.
pub open spec fn distinct(rows: Seq<usize>) -> bool {
    forall|i: int, j: int| 0 <= i < j < rows.len() ==> #[trigger] rows[i] != #[trigger] rows[j]
}

/// The iterates are orthonormal with respect to `B` and diagonalise `A`, with the Ritz values on the
/// diagonal, and the residuals and directions that enter the search space are orthonormal with
/// respect to `B`, as far as the run has come.
pub open spec fn normalised<T: Scalar>(m: LobpcgModel<T>) -> bool {
    &&& !(m.stage is InitialBasis) ==> orthonormal(m.x, m.bx)
    &&& !(m.stage is InitialBasis || m.stage is InitialRitz) ==> {
        &&& diagonal_on(m.x, m.ax, m.lambda)
        &&& distinct(m.active)
    }
    &&& m.stage is DirectionBasis ==> m.iteration > 1
    &&& m.stage is DirectionBasis || m.stage is Ritz ==> orthonormal_at(m.r, m.br, m.active)
    &&& m.stage matches Stage::Ritz { directions } ==> directions > 0 ==> m.iteration > 1
        && orthonormal_at(m.p, m.bp, m.active)
}

/// Entries of a combination that starts from a vector.
pub proof fn lemma_accumulate_from<T: Field>(
    start: Seq<T>,
    coefficients: Seq<T>,
    vectors: Seq<Seq<T>>,
    m: nat,
    t: int,
)
    requires
        is_ring::<T>(),
        0 <= t < start.len(),
    ensures
        accumulate(start, coefficients, vectors, m).len() == start.len(),
        accumulate(start, coefficients, vectors, m)[t] == start[t].plus(
            total(m, |a: int| coefficients[a].times(vectors[a][t])),
        ),
    decreases m,
{
    let term = |a: int| coefficients[a].times(vectors[a][t]);
    if m == 0 {
        lemma_ring(start[t], start[t], start[t]);
    } else {
        let less = (m - 1) as nat;
        lemma_accumulate_from(start, coefficients, vectors, less, t);
        lemma_ring(start[t], total(less, term), term(m - 1));
    }
}

/// The vectors that span the search space: the iterates, the active residuals, and as many active
/// directions as take part.
pub open spec fn search_space<T: Scalar>(
    m: LobpcgModel<T>,
    directions: nat,
    block: Seq<Seq<T>>,
    res: Seq<Seq<T>>,
    dirs: Seq<Seq<T>>,
) -> Seq<Seq<T>> {
    let (k, s) = (m.x.len(), m.active.len());
    Seq::new(
        k + s + directions,
        |a: int|
            if a < k {
                block[a]
            } else if a < k + s {
                res[m.active[a - k] as int]
            } else {
                dirs[m.active[a - k - s] as int]
            },
    )
}

/// A new iterate is the combination of the vectors that span the search space with the coordinates
/// of its Ritz vector.
proof fn lemma_moved_combined<T: Scalar>(
    m: LobpcgModel<T>,
    directions: nat,
    coords: Seq<T>,
    from: nat,
    block: Seq<Seq<T>>,
    res: Seq<Seq<T>>,
    dirs: Seq<Seq<T>>,
    n: nat,
    j: int,
)
    requires
        is_ring::<T>(),
        m.x.len() + m.active.len() + directions <= usize::MAX,
        block.len() == m.x.len(),
        directions == 0 || (directions == m.active.len() && m.iteration > 1),
        from + m.x.len() <= m.x.len() + m.active.len() + directions,
        coords.len() == (m.x.len() + m.active.len() + directions) * (m.x.len() + m.active.len()
            + directions),
        0 <= j < m.x.len(),
    ensures
        ({
            let size = m.x.len() + m.active.len() + directions;
            let kept = coords.subrange(
                (from * size) as int,
                ((from + m.x.len()) * size) as int,
            );
            m.moved_iterates(
                directions,
                kept,
                block,
                m.moved_directions(directions, kept, dirs, res, n),
                n,
            )[j] == combined(
                search_space(m, directions, block, res, dirs),
                first_indices(size),
                transposed(coords, size),
                size,
                n,
            )[from + j]
        }),
{
    let (k, s) = (m.x.len(), m.active.len());
    let size = k + s + directions;
    let kept = coords.subrange((from * size) as int, ((from + k) * size) as int);
    let space = search_space(m, directions, block, res, dirs);
    let all = first_indices(size);
    let zero = zero_vector::<T>(n);
    assert(0 <= from * size && (from + k) * size <= size * size && (from + k) * size - from * size
        == k * size) by (nonlinear_arith)
        requires
            from + k <= size,
    ;
    assert(0 <= j * size && j * size + size <= k * size && (from + j) * size == from * size + j
        * size) by (nonlinear_arith)
        requires
            0 <= j,
            j + 1 <= k,
            0 <= size,
            0 <= from,
    ;
    let direction = m.moved_direction(directions, kept, dirs, res, n, j);
    let left = m.moved_iterates(
        directions,
        kept,
        block,
        m.moved_directions(directions, kept, dirs, res, n),
        n,
    )[j];
    let column = matrix_column(transposed(coords, size), size, size, from + j);
    let right = combined(space, all, transposed(coords, size), size, n)[from + j];
    assert(right == accumulate(zero, column, gather(space, all), size));
    let (cx, cr, cp) = (
        kept.subrange(j * size, j * size + k),
        kept.subrange(j * size + k, j * size + k + s),
        kept.subrange(j * size + k + s, j * size + k + s + s),
    );
    let gx = gather(block, first_indices(k));
    let (gr, gp) = (gather(res, m.active), gather(dirs, m.active));
    super::block::lemma_accumulate_length(zero, cx, gx, k);
    super::block::lemma_accumulate_length(zero, column, gather(space, all), size);
    assert forall|t: int| 0 <= t < n implies left[t] == right[t] by {
        let term = |a: int| column[a].times(gather(space, all)[a][t]);
        let (tx, tr, tp) = (
            |a: int| cx[a].times(gx[a][t]),
            |a: int| cr[a].times(gr[a][t]),
            |a: int| cp[a].times(gp[a][t]),
        );
        // The parts of the full combination.
        assert forall|a: int| 0 <= a < size implies #[trigger] column[a] == coords[(from + j) * size
            + a] by {
            lemma_position(a, from + j, size as int, size as int);
        }
        lemma_accumulate_from(zero, column, gather(space, all), size, t);
        lemma_ring(total(size, term), T::nought(), T::nought());
        lemma_total_parts(k, s + directions, term);
        let rest = |a: int| term(k + a);
        lemma_total_parts(s, directions, rest);
        let last = |a: int| rest(s + a);
        assert forall|a: int| 0 <= a < k implies #[trigger] term(a) == tx(a) by {}
        assert forall|a: int| 0 <= a < s implies #[trigger] rest(a) == tr(a) by {}
        lemma_total_same(k, term, tx);
        lemma_total_same(s, rest, tr);
        // The parts of the iterate.
        lemma_accumulate_from(zero, cx, gx, k, t);
        lemma_ring(total(k, tx), T::nought(), T::nought());
        let along = if m.iteration > 1 && directions > 0 {
            accumulate(zero, cp, gp, s)
        } else {
            zero
        };
        lemma_accumulate_from(zero, cp, gp, s, t);
        lemma_ring(total(s, tp), T::nought(), T::nought());
        lemma_accumulate_from(along, cr, gr, s, t);
        if directions > 0 {
            assert forall|a: int| 0 <= a < s implies #[trigger] last(a) == tp(a) by {}
            lemma_total_same(s, last, tp);
        }
        assert(along[t] == total(directions, last));
        lemma_ring(total(s, tr), total(directions, last), T::nought());
        lemma_ring(direction[t], T::nought(), T::nought());
    }
    assert(left =~= right);
}

/// The entries of `Rᵀ·G·R` depend on those of `G`.
proof fn lemma_congruent_same<T: Field>(r: Seq<T>, g: Seq<T>, h: Seq<T>, w: nat, i: int, j: int)
    requires
        same_matrix(g, h, w),
    ensures
        congruent_entry(r, g, w, i, j) == congruent_entry(r, h, w, i, j),
{
    let (f, e) = (
        |a: int| total(w, |b: int| r[a * w + i].times(r[b * w + j].times(g[a * w + b]))),
        |a: int| total(w, |b: int| r[a * w + i].times(r[b * w + j].times(h[a * w + b]))),
    );
    assert forall|a: int| 0 <= a < w implies #[trigger] f(a) == e(a) by {
        let (u, v) = (
            |b: int| r[a * w + i].times(r[b * w + j].times(g[a * w + b])),
            |b: int| r[a * w + i].times(r[b * w + j].times(h[a * w + b])),
        );
        assert forall|b: int| 0 <= b < w implies #[trigger] u(b) == v(b) by {
            assert(g[a * w + b] == h[a * w + b]);
        }
        lemma_total_same(w, u, v);
    }
    lemma_total_same(w, f, e);
}

/// The Gram matrix of vectors and their images under a symmetric operator, from its lower triangle.
proof fn lemma_symmetric_gram<T: Field>(
    s: Seq<Seq<T>>,
    q: Seq<Seq<T>>,
    lower: spec_fn(int, int) -> T,
    image: spec_fn(Seq<T>) -> Seq<T>,
    n: nat,
    a: int,
    b: int,
)
    requires
        s.len() <= usize::MAX,
        is_symmetric_on(image, n),
        forall|i: int| 0 <= i < s.len() ==> (#[trigger] s[i]).len() == n && q[i] == image(s[i]),
        forall|i: int, j: int|
            0 <= j <= i < s.len() ==> #[trigger] lower(i, j) == dot_product(s[i], q[j]),
        0 <= a < s.len(),
        0 <= b < s.len(),
    ensures
        gram(s, q, first_indices(s.len()), first_indices(s.len()))[a * s.len() + b] == symmetric(
            lower,
            s.len(),
        )[a * s.len() + b],
{
    let size = s.len();
    lemma_position(a, b, size as int, size as int);
    assert(s[a].len() == n && s[b].len() == n);
    if a >= b {
        assert(lower(a, b) == dot_product(s[a], q[b]));
    } else {
        assert(lower(b, a) == dot_product(s[b], q[a]));
        assert(dot_product(s[a], image(s[b])) == dot_product(s[b], image(s[a])));
    }
}

/// The same for a Gram matrix that is mirrored.
proof fn lemma_mirrored_gram<T: Field>(
    s: Seq<Seq<T>>,
    q: Seq<Seq<T>>,
    image: spec_fn(Seq<T>) -> Seq<T>,
    n: nat,
    a: int,
    b: int,
)
    requires
        s.len() <= usize::MAX,
        is_symmetric_on(image, n),
        forall|i: int| 0 <= i < s.len() ==> (#[trigger] s[i]).len() == n && q[i] == image(s[i]),
        0 <= a < s.len(),
        0 <= b < s.len(),
    ensures
        ({
            let all = first_indices(s.len());
            gram(s, q, all, all)[a * s.len() + b] == mirrored(gram(s, q, all, all), s.len())[a
                * s.len() + b]
        }),
{
    let size = s.len();
    lemma_position(a, b, size as int, size as int);
    lemma_position(b, a, size as int, size as int);
    assert(s[a].len() == n && s[b].len() == n);
    assert(dot_product(s[a], image(s[b])) == dot_product(s[b], image(s[a])));
}

/// Replaced columns, one by one, where none is replaced twice.
proof fn lemma_scattered_distinct<A>(block: Seq<A>, rows: Seq<usize>, new: Seq<A>, m: nat)
    requires
        m <= rows.len(),
        all_below(rows, block.len()),
        distinct(rows),
    ensures
        scattered(block, rows, new, m).len() == block.len(),
        forall|i: int|
            0 <= i < m ==> scattered(block, rows, new, m)[#[trigger] rows[i] as int] == new[i],
    decreases m,
{
    if m > 0 {
        lemma_scattered_distinct(block, rows, new, (m - 1) as nat);
    }
}

/// Orthonormalised columns are orthonormal where they are put back.
proof fn lemma_columns_orthonormalised<T: Field>(
    x: Seq<Seq<T>>,
    y: Seq<Seq<T>>,
    rows: Seq<usize>,
    r: Seq<T>,
    n: nat,
)
    requires
        is_ring::<T>(),
        rows.len() <= usize::MAX,
        x.len() == y.len(),
        all_below(rows, x.len()),
        distinct(rows),
        forall|a: int| 0 <= a < x.len() ==> (#[trigger] x[a]).len() == n,
        turns_into_identity(r, gram(x, y, rows, rows), rows.len()),
    ensures
        ({
            let w = rows.len();
            orthonormal_at(
                scattered(x, rows, combined(x, rows, r, w, n), w),
                scattered(y, rows, combined(y, rows, r, w, n), w),
                rows,
            )
        }),
{
    let w = rows.len();
    let all = first_indices(w);
    let (cx, cy) = (combined(x, rows, r, w, n), combined(y, rows, r, w, n));
    lemma_scattered_distinct(x, rows, cx, w);
    lemma_scattered_distinct(y, rows, cy, w);
    let (nx, ny) = (scattered(x, rows, cx, w), scattered(y, rows, cy, w));
    assert forall|i: int, j: int| 0 <= i < w && 0 <= j < w implies #[trigger] dot_product(
        nx[rows[i] as int],
        ny[rows[j] as int],
    ) == identity_entry::<T>(i, j) by {
        lemma_gram_combined(x, y, rows, r, n, i, j);
        lemma_position(i, j, w as int, w as int);
        assert(congruent_entry(r, gram(x, y, rows, rows), w, i, j) == identity_entry::<T>(i, j));
        assert(gram(cx, cy, all, all)[i * w + j] == dot_product(cx[i], cy[j]));
    }
}

/// The columns that have not converged are different ones.
proof fn lemma_active_distinct<T: Scalar>(
    lambda: Seq<T>,
    res_norms: Seq<T>,
    tol: T::Wide,
    j: nat,
)
    requires
        j <= usize::MAX,
    ensures
        distinct(unconverged_columns(lambda, res_norms, tol, j)),
    decreases j,
{
    if j > 0 {
        lemma_active_distinct(lambda, res_norms, tol, (j - 1) as nat);
        lemma_unconverged_columns(lambda, res_norms, tol, (j - 1) as nat);
    }
}

/// The beginning of an iteration leaves the iterates as they are.
proof fn lemma_iterated_normalised<'p, T: Scalar>(
    solver: Lobpcg<'p, T>,
    params: EigenParams<T>,
    n: nat,
    m: LobpcgModel<T>,
    it: nat,
)
    requires
        m.x.len() <= usize::MAX,
        m.stage is InitialRitz || m.stage is Ritz,
        it >= 1,
        m.stage matches Stage::Ritz { directions } ==> it > 1,
        orthonormal(m.x, m.bx),
        diagonal_on(m.x, m.ax, m.lambda),
    ensures
        state_of(solver.iterated(params, n, m, it)) matches Some(after) ==> normalised(after)
            && orthonormal(after.x, after.bx) && diagonal_on(after.x, after.ax, after.lambda),
{
    let k = m.x.len();
    let tol = Lobpcg::<'p, T>::tolerance(params);
    lemma_active_distinct(m.lambda, m.res_norms, tol, k);
}

/// A run starts normalised: nothing is asked of its iterates yet.
pub proof fn lemma_starts_normalised<'p, T: Scalar>(solver: Lobpcg<'p, T>, initial: Seq<Seq<T>>)
    ensures
        state_of(solver.started(initial)) matches Some(m) && normalised(m),
{
}

/// In exact arithmetic, for symmetric operators, and where the reply is the decomposition that was
/// asked for, a step keeps the iterates orthonormal with respect to `B` and keeps `A` diagonal on
/// them, with the Ritz values on the diagonal. So the eigenvectors of a run that has converged are
/// orthonormal with respect to `B`.
pub proof fn lemma_stays_normalised<'p, T: Scalar, Op: LinearOperator<T>>(
    solver: Lobpcg<'p, T>,
    a: Op,
    params: EigenParams<T>,
    m: LobpcgModel<T>,
    reply: ReplyModel<T::Wide>,
    k: nat,
)
    requires
        is_ring::<T>(),
        3 * k <= usize::MAX,
        m.wf(k, a.rows()),
        m.answered_by(reply),
        is_symmetric_on(|v: Seq<T>| a.image(v), a.rows()),
        is_symmetric_on(|v: Seq<T>| solver.b_image(v), a.rows()),
        tracks(m, |v: Seq<T>| a.image(v), |v: Seq<T>| solver.b_image(v), a.rows()),
        solves_request(m, reply),
        normalised(m),
    ensures
        state_of(solver.resumed(a, params, m, reply)) matches Some(after) ==> normalised(after),
        solver.resumed(a, params, m, reply) matches StepModel::Converged { state } ==> orthonormal(
            state.x,
            state.bx,
        ) && diagonal_on(state.x, state.ax, state.lambda),
{
    let n = a.rows();
    let fa = |v: Seq<T>| a.image(v);
    let fb = |v: Seq<T>| solver.b_image(v);
    let all = first_indices(k);
    let step = solver.resumed(a, params, m, reply);
    match m.stage {
        Stage::InitialBasis => {
            if let ReplyModel::Factor(Some(u)) = reply {
                let r = narrowed_all::<T>(u);
                let (x, bx) = (combined(m.x, all, r, k, n), combined(m.bx, all, r, k, n));
                assert forall|i: int, j: int| 0 <= i < k && 0 <= j < k implies #[trigger] dot_product(
                    x[i],
                    bx[j],
                ) == identity_entry::<T>(i, j) by {
                    assert forall|c: int| 0 <= c < k implies m.x[#[trigger] all[c] as int].len()
                        == n by {
                        assert(m.x[c].len() == n);
                    }
                    lemma_gram_combined(m.x, m.bx, all, r, n, i, j);
                    lemma_position(i, j, k as int, k as int);
                    assert(congruent_entry(r, gram(m.x, m.bx, all, all), k, i, j)
                        == identity_entry::<T>(i, j));
                    assert(gram(x, bx, all, all)[i * k + j] == dot_product(x[i], bx[j]));
                }
                assert(orthonormal((state_of(step)->0).x, (state_of(step)->0).bx));
            }
        },
        Stage::InitialRitz => {
            if let ReplyModel::Pairs { values, vectors } = reply {
                let v = ascending_vectors::<T>(values, vectors);
                let r = transposed(v, k);
                let lambda = ascending_values::<T>(values);
                lemma_initial_ritz(m.x, m.ax, fa, r, n);
                lemma_initial_ritz(m.x, m.bx, fb, r, n);
                let (x, ax, bx) = (
                    combined(m.x, all, r, k, n),
                    combined(m.ax, all, r, k, n),
                    combined(m.bx, all, r, k, n),
                );
                assert forall|i: int, j: int| 0 <= i < k && 0 <= j < k implies #[trigger] dot_product(
                    x[i],
                    bx[j],
                ) == identity_entry::<T>(i, j) by {
                    assert(congruent_entry(r, mirrored(gram(m.x, m.bx, all, all), k), k, i, j)
                        == identity_entry::<T>(i, j));
                }
                assert forall|i: int, j: int| 0 <= i < k && 0 <= j < k implies #[trigger] dot_product(
                    x[i],
                    ax[j],
                ) == diagonal_entry(lambda, i, j) by {
                    assert(congruent_entry(r, mirrored(gram(m.x, m.ax, all, all), k), k, i, j)
                        == diagonal_entry(lambda, i, j));
                }
                let res = Seq::new(k, |j: int| residual(bx[j], ax[j], lambda[j]));
                let next = LobpcgModel {
                    x,
                    ax,
                    bx,
                    r: res,
                    p: zero_block(k, n),
                    ap: zero_block(k, n),
                    bp: zero_block(k, n),
                    lambda,
                    res_norms: Seq::new(k, |j: int| euclidean(res[j])),
                    ..m
                };
                assert(step == solver.iterated(params, n, next, 1));
                lemma_iterated_normalised(solver, params, n, next, 1);
            }
        },
        Stage::ResidualBasis => {
            if let ReplyModel::Factor(Some(u)) = reply {
                let r = narrowed_all::<T>(u);
                lemma_columns_orthonormalised(m.r, m.br, m.active, r, n);
            }
        },
        Stage::DirectionBasis => {
            if let ReplyModel::Factor(Some(u)) = reply {
                let r = narrowed_all::<T>(u);
                lemma_columns_orthonormalised(m.p, m.bp, m.active, r, n);
            }
        },
        Stage::Ritz { directions } => {
            if let ReplyModel::Pairs { values, vectors } = reply {
                let lambda = kept_values(ascending_values::<T>(values), k, params.which);
                let coords = kept_coords(
                    ascending_vectors::<T>(values, vectors),
                    values.len(),
                    k,
                    params.which,
                );
                let next = m.moved(directions as nat, lambda, coords, n);
                lemma_sorting_exists(values, false);
                lemma_ritz_normalised(m, fa, fb, params.which, values, vectors, k, n);
                lemma_iterated_normalised(solver, params, n, next, m.iteration + 1);
            }
        },
    }
}

/// The iterates after a Rayleigh–Ritz step.
proof fn lemma_ritz_normalised<T: Scalar>(
    m: LobpcgModel<T>,
    fa: spec_fn(Seq<T>) -> Seq<T>,
    fb: spec_fn(Seq<T>) -> Seq<T>,
    which: EigenWhich,
    values: Seq<T::Wide>,
    vectors: Seq<T::Wide>,
    k: nat,
    n: nat,
)
    requires
        is_ring::<T>(),
        3 * k <= usize::MAX,
        m.wf(k, n),
        m.stage is Ritz,
        is_symmetric_on(fa, n),
        is_symmetric_on(fb, n),
        tracks(m, fa, fb, n),
        normalised(m),
        values.len() == m.request_size(),
        sorting(values, false).len() == values.len(),
        solves_pencil(
            values,
            vectors,
            handed_out_a(m, m.request_size()),
            handed_out_b(m, m.request_size()),
            m.request_size(),
        ),
    ensures
        ({
            let lambda = kept_values(ascending_values::<T>(values), k, which);
            let coords = kept_coords(
                ascending_vectors::<T>(values, vectors),
                values.len(),
                k,
                which,
            );
            let next = m.moved((m.stage->directions) as nat, lambda, coords, n);
            orthonormal(next.x, next.bx) && diagonal_on(next.x, next.ax, next.lambda)
        }),
{
    let d = (m.stage->directions) as nat;
    let size = k + m.active.len() + d;
    let v = ascending_vectors::<T>(values, vectors);
    let theta = ascending_values::<T>(values);
    let from = first_kept(which, size, k);
    let lambda = kept_values(theta, k, which);
    let coords = kept_coords(v, size, k, which);
    let next = m.moved(d, lambda, coords, n);
    lemma_search_gram(m, fa, fb, d, k, n);
    lemma_moved_gram(m, d, v, from, m.bx, m.br, m.bp, k, n);
    lemma_moved_gram(m, d, v, from, m.ax, m.ar, m.ap, k, n);
    let r = transposed(v, size);
    let (ga, gb) = (handed_out_a(m, size), handed_out_b(m, size));
    let full = first_indices(size);
    let space = search_space(m, d, m.x, m.r, m.p);
    let (sa, sb) = (
        search_space(m, d, m.ax, m.ar, m.ap),
        search_space(m, d, m.bx, m.br, m.bp),
    );
    assert forall|i: int, j: int| 0 <= i < k && 0 <= j < k implies #[trigger] dot_product(
        next.x[i],
        next.bx[j],
    ) == identity_entry::<T>(i, j) by {
        lemma_congruent_same(r, gram(space, sb, full, full), gb, size, from + i, from + j);
        assert(congruent_entry(r, gb, size, from + i, from + j) == identity_entry::<T>(
            from + i,
            from + j,
        ));
    }
    assert forall|i: int, j: int| 0 <= i < k && 0 <= j < k implies #[trigger] dot_product(
        next.x[i],
        next.ax[j],
    ) == diagonal_entry(lambda, i, j) by {
        lemma_congruent_same(r, gram(space, sa, full, full), ga, size, from + i, from + j);
        assert(congruent_entry(r, ga, size, from + i, from + j) == diagonal_entry(
            theta,
            from + i,
            from + j,
        ));
    }
}

/// The products after the initial Rayleigh–Ritz step.
proof fn lemma_initial_ritz<T: Field>(
    x: Seq<Seq<T>>,
    y: Seq<Seq<T>>,
    image: spec_fn(Seq<T>) -> Seq<T>,
    r: Seq<T>,
    n: nat,
)
    requires
        is_ring::<T>(),
        x.len() <= usize::MAX,
        is_symmetric_on(image, n),
        related(image_pairs(image, n), x, y),
    ensures
        ({
            let k = x.len();
            let all = first_indices(k);
            forall|i: int, j: int|
                0 <= i < k && 0 <= j < k ==> #[trigger] dot_product(
                    combined(x, all, r, k, n)[i],
                    combined(y, all, r, k, n)[j],
                ) == congruent_entry(r, mirrored(gram(x, y, all, all), k), k, i, j)
        }),
{
    let k = x.len();
    let all = first_indices(k);
    let rel = image_pairs(image, n);
    assert forall|c: int| 0 <= c < k implies (#[trigger] x[c]).len() == n && y[c] == image(
        x[c],
    ) by {
        assert(rel(x[c], y[c]));
    }
    let g = gram(x, y, all, all);
    assert forall|a: int, b: int| 0 <= a < k && 0 <= b < k implies #[trigger] g[a * k + b]
        == mirrored(g, k)[a * k + b] by {
        lemma_mirrored_gram(x, y, image, n, a, b);
    }
    let (cx, cy) = (combined(x, all, r, k, n), combined(y, all, r, k, n));
    assert forall|i: int, j: int| 0 <= i < k && 0 <= j < k implies #[trigger] dot_product(
        cx[i],
        cy[j],
    ) == congruent_entry(r, mirrored(g, k), k, i, j) by {
        assert forall|c: int| 0 <= c < k implies x[#[trigger] all[c] as int].len() == n by {
            assert(x[c].len() == n);
        }
        lemma_gram_combined(x, y, all, r, n, i, j);
        lemma_position(i, j, k as int, k as int);
        lemma_congruent_same(r, g, mirrored(g, k), k, i, j);
        assert(gram(cx, cy, all, all)[i * k + j] == dot_product(cx[i], cy[j]));
    }
}

/// The matrices that are handed out are the Gram matrices of the search space.
proof fn lemma_search_gram<T: Scalar>(
    m: LobpcgModel<T>,
    fa: spec_fn(Seq<T>) -> Seq<T>,
    fb: spec_fn(Seq<T>) -> Seq<T>,
    d: nat,
    k: nat,
    n: nat,
)
    requires
        3 * k <= usize::MAX,
        m.wf(k, n),
        m.stage matches Stage::Ritz { directions } && directions == d,
        is_symmetric_on(fa, n),
        is_symmetric_on(fb, n),
        tracks(m, fa, fb, n),
        normalised(m),
    ensures
        ({
            let size = k + m.active.len() + d;
            let full = first_indices(size);
            let space = search_space(m, d, m.x, m.r, m.p);
            let ga = gram(space, search_space(m, d, m.ax, m.ar, m.ap), full, full);
            let gb = gram(space, search_space(m, d, m.bx, m.br, m.bp), full, full);
            same_matrix(ga, handed_out_a(m, size), size) && same_matrix(
                gb,
                handed_out_b(m, size),
                size,
            )
        }),
{
    let s = m.active.len();
    let size = k + s + d;
    let full = first_indices(size);
    let space = search_space(m, d, m.x, m.r, m.p);
    let (sa, sb) = (
        search_space(m, d, m.ax, m.ar, m.ap),
        search_space(m, d, m.bx, m.br, m.bp),
    );
    let (under_a, under_b) = (image_pairs(fa, n), image_pairs(fb, n));
    lemma_all_related(under_a, m.p, m.ap, m.active);
    lemma_all_related(under_b, m.p, m.bp, m.active);
    assert forall|i: int| 0 <= i < size implies (#[trigger] space[i]).len() == n && sa[i] == fa(
        space[i],
    ) && sb[i] == fb(space[i]) by {
        if i < k {
            assert(under_a(m.x[i], m.ax[i]) && under_b(m.x[i], m.bx[i]));
        } else if i < k + s {
            let at = m.active[i - k] as int;
            assert(under_a(m.r[at], m.ar[at]) && under_b(m.r[at], m.br[at]));
        } else {
            let at = m.active[i - k - s] as int;
            assert(under_a(m.p[at], m.ap[at]) && under_b(m.p[at], m.bp[at]));
        }
    }
    let (la, lb) = (|i: int, j: int| m.gram_a(i, j), |i: int, j: int| m.gram_b(i, j));
    assert forall|i: int, j: int| 0 <= j <= i < size implies #[trigger] la(i, j) == dot_product(
        space[i],
        sa[j],
    ) by {
        if i < k {
            assert(dot_product(m.x[i], m.ax[j]) == diagonal_entry(m.lambda, i, j));
        }
    }
    assert forall|i: int, j: int| 0 <= j <= i < size implies #[trigger] lb(i, j) == dot_product(
        space[i],
        sb[j],
    ) by {
        if i < k {
            assert(dot_product(m.x[i], m.bx[j]) == identity_entry::<T>(i, j));
        } else if j >= k && i < k + s {
            assert(dot_product(m.r[m.active[i - k] as int], m.br[m.active[j - k] as int])
                == identity_entry::<T>(i - k, j - k));
        } else if j >= k + s {
            assert(dot_product(
                m.p[m.active[i - k - s] as int],
                m.bp[m.active[j - k - s] as int],
            ) == identity_entry::<T>(i - k - s, j - k - s));
        }
    }
    let (ga, gb) = (gram(space, sa, full, full), gram(space, sb, full, full));
    assert forall|a: int, b: int| 0 <= a < size && 0 <= b < size implies #[trigger] ga[a * size + b]
        == handed_out_a(m, size)[a * size + b] by {
        lemma_symmetric_gram(space, sa, la, fa, n, a, b);
    }
    assert forall|a: int, b: int| 0 <= a < size && 0 <= b < size implies #[trigger] gb[a * size + b]
        == handed_out_b(m, size)[a * size + b] by {
        lemma_symmetric_gram(space, sb, lb, fb, n, a, b);
    }
}

/// The products of the new iterates with their images.
proof fn lemma_moved_gram<T: Scalar>(
    m: LobpcgModel<T>,
    d: nat,
    v: Seq<T>,
    from: nat,
    ix: Seq<Seq<T>>,
    ir: Seq<Seq<T>>,
    ip: Seq<Seq<T>>,
    k: nat,
    n: nat,
)
    requires
        is_ring::<T>(),
        3 * k <= usize::MAX,
        m.wf(k, n),
        m.stage matches Stage::Ritz { directions } && directions == d,
        d > 0 ==> m.iteration > 1,
        from + k <= k + m.active.len() + d,
        v.len() == (k + m.active.len() + d) * (k + m.active.len() + d),
        ix.len() == k,
    ensures
        ({
            let size = k + m.active.len() + d;
            let full = first_indices(size);
            let kept = v.subrange((from * size) as int, ((from + k) * size) as int);
            let x = m.moved_iterates(
                d,
                kept,
                m.x,
                m.moved_directions(d, kept, m.p, m.r, n),
                n,
            );
            let y = m.moved_iterates(d, kept, ix, m.moved_directions(d, kept, ip, ir, n), n);
            forall|i: int, j: int|
                0 <= i < k && 0 <= j < k ==> #[trigger] dot_product(x[i], y[j]) == congruent_entry(
                    transposed(v, size),
                    gram(
                        search_space(m, d, m.x, m.r, m.p),
                        search_space(m, d, ix, ir, ip),
                        full,
                        full,
                    ),
                    size,
                    from + i,
                    from + j,
                )
        }),
{
    let size = k + m.active.len() + d;
    let full = first_indices(size);
    let kept = v.subrange((from * size) as int, ((from + k) * size) as int);
    let x = m.moved_iterates(d, kept, m.x, m.moved_directions(d, kept, m.p, m.r, n), n);
    let y = m.moved_iterates(d, kept, ix, m.moved_directions(d, kept, ip, ir, n), n);
    let space = search_space(m, d, m.x, m.r, m.p);
    let images = search_space(m, d, ix, ir, ip);
    let r = transposed(v, size);
    let (cx, cy) = (combined(space, full, r, size, n), combined(images, full, r, size, n));
    assert forall|c: int| 0 <= c < size implies space[#[trigger] full[c] as int].len() == n by {
        if c < k {
            assert(m.x[c].len() == n);
        } else if c < k + m.active.len() {
            assert(m.r[m.active[c - k] as int].len() == n);
        } else {
            assert(m.p[m.active[c - k - m.active.len()] as int].len() == n);
        }
    }
    assert forall|i: int, j: int| 0 <= i < k && 0 <= j < k implies #[trigger] dot_product(x[i], y[j])
        == congruent_entry(r, gram(space, images, full, full), size, from + i, from + j) by {
        lemma_moved_combined(m, d, v, from, m.x, m.r, m.p, n, i);
        lemma_moved_combined(m, d, v, from, ix, ir, ip, n, j);
        lemma_gram_combined(space, images, full, r, n, from + i, from + j);
        lemma_position(from + i, from + j, size as int, size as int);
        assert(gram(cx, cy, full, full)[(from + i) * size + (from + j)] == dot_product(
            cx[from + i],
            cy[from + j],
        ));
    }
}

/// For the top modes no Ritz value that is dropped exceeds one that is kept; otherwise none that is
/// dropped is smaller.
pub proof fn lemma_kept_extremes<T: Scalar>(
    values: Seq<T::Wide>,
    k: nat,
    which: EigenWhich,
    kept: int,
    dropped: int,
)
    requires
        totally_ordered(values),
        k <= values.len() <= usize::MAX,
        0 <= dropped < values.len(),
        first_kept(which, values.len(), k) <= kept < first_kept(which, values.len(), k) + k,
        !(first_kept(which, values.len(), k) <= dropped < first_kept(which, values.len(), k) + k),
    ensures
        ({
            let order = sorting(values, false);
            let (u, v) = (values[order[kept] as int], values[order[dropped] as int]);
            &&& kept_values(ascending_values::<T>(values), k, which)[kept - first_kept(
                which,
                values.len(),
                k,
            )] == T::narrowed(u)
            &&& if which is LargestAlgebraic {
                !u.less(v)
            } else {
                !v.less(u)
            }
        }),
{
    lemma_sorting_exists(values, false);
    lemma_sorted_values(values, false, sorting(values, false));
}

/// The factor that a run asks for is that of the products of the columns that it is to
/// orthonormalise: of the active residuals with their images under `B`, or of the active directions
/// with theirs.
pub proof fn lemma_factors_requested<'p, T: Scalar, Op: LinearOperator<T>>(
    solver: Lobpcg<'p, T>,
    a: Op,
    params: EigenParams<T>,
    m: LobpcgModel<T>,
    reply: ReplyModel<T::Wide>,
    i: int,
    j: int,
)
    ensures
        solver.resumed(a, params, m, reply) matches StepModel::Factor { state, matrix, size } ==> (
        0 <= i < size && 0 <= j < size ==> {
            let (p, q) = (state.active[i] as int, state.active[j] as int);
            &&& size == state.active.len()
            &&& matrix.len() == size * size
            &&& state.stage is ResidualBasis || state.stage is DirectionBasis
            &&& matrix[i * size + j] == wide_or(
                if state.stage is ResidualBasis {
                    dot_product(state.r[p], state.br[q])
                } else {
                    dot_product(state.p[p], state.bp[q])
                },
                T::Wide::nought(),
            )
        }),
{
    if let StepModel::Factor { state, matrix, size } = solver.resumed(a, params, m, reply) {
        if 0 <= i < size && 0 <= j < size {
            lemma_position(i, j, size as int, size as int);
        }
    }
}

/// In exact arithmetic, for symmetric operators, the pencils that a run asks for are the
/// projections of the two operators to its search space: the products of the vectors that span it
/// with their images. The search space of the initial step is that of the iterates.
pub proof fn lemma_pencils_requested<'p, T: Scalar, Op: LinearOperator<T>>(
    solver: Lobpcg<'p, T>,
    a: Op,
    params: EigenParams<T>,
    m: LobpcgModel<T>,
    reply: ReplyModel<T::Wide>,
    k: nat,
    i: int,
    j: int,
)
    requires
        is_ring::<T>(),
        3 * k <= usize::MAX,
        m.wf(k, a.rows()),
        m.answered_by(reply),
        solver.keeps_length(a.rows()),
        acts_linearly(|v: Seq<T>| a.image(v), a.rows()),
        acts_linearly(|v: Seq<T>| solver.b_image(v), a.rows()),
        is_symmetric_on(|v: Seq<T>| a.image(v), a.rows()),
        is_symmetric_on(|v: Seq<T>| solver.b_image(v), a.rows()),
        tracks(m, |v: Seq<T>| a.image(v), |v: Seq<T>| solver.b_image(v), a.rows()),
        solves_request(m, reply),
        normalised(m),
    ensures
        solver.resumed(a, params, m, reply) matches StepModel::Pencil {
            state,
            a: ga,
            b: gb,
            size,
        } ==> (state.wf(k, a.rows()) && 0 <= i < size && 0 <= j < size ==> {
            let space = match state.stage {
                Stage::Ritz { directions } => search_space(
                    state,
                    directions as nat,
                    state.x,
                    state.r,
                    state.p,
                ),
                _ => state.x,
            };
            let image = match solver.b_op {
                Some(b) => b.image(space[j]),
                None => space[j],
            };
            &&& size == space.len()
            &&& ga[i * size + j] == wide_or(
                dot_product(space[i], a.image(space[j])),
                T::Wide::nought(),
            )
            &&& gb[i * size + j] == wide_or(dot_product(space[i], image), T::Wide::nought())
        }),
{
    let n = a.rows();
    let (fa, fb) = (|v: Seq<T>| a.image(v), |v: Seq<T>| solver.b_image(v));
    let step = solver.resumed(a, params, m, reply);
    lemma_stays_normalised(solver, a, params, m, reply, k);
    lemma_keeps_tracking(solver, a, params, m, reply, k);
    lemma_pencil_shape(solver, a, params, m, reply);
    if let StepModel::Pencil { state, a: ga, b: gb, size } = step {
        if state.wf(k, n) && 0 <= i < size && 0 <= j < size {
            assert(tracks(state, fa, fb, n));
            assert(normalised(state));
            lemma_position(i, j, size as int, size as int);
            if let Stage::Ritz { directions } = state.stage {
                lemma_projected(state, fa, fb, directions as nat, k, n, i, j);
            } else {
                lemma_projected_initial(state, fa, fb, k, n, i, j);
            }
        }
    }
}

/// The pencils that a run hands out, by the stage in which it waits for the reply.
proof fn lemma_pencil_shape<'p, T: Scalar, Op: LinearOperator<T>>(
    solver: Lobpcg<'p, T>,
    a: Op,
    params: EigenParams<T>,
    m: LobpcgModel<T>,
    reply: ReplyModel<T::Wide>,
)
    ensures
        solver.resumed(a, params, m, reply) matches StepModel::Pencil {
            state,
            a: ga,
            b: gb,
            size,
        } ==> {
            let all = first_indices(state.x.len());
            match state.stage {
                Stage::Ritz { directions } => {
                    &&& size == state.x.len() + state.active.len() + directions as nat
                    &&& ga == widened_all(handed_out_a(state, size))
                    &&& gb == widened_all(handed_out_b(state, size))
                },
                Stage::InitialRitz => {
                    &&& size == state.x.len()
                    &&& ga == widened_all(mirrored(gram(state.x, state.ax, all, all), size))
                    &&& gb == widened_all(mirrored(gram(state.x, state.bx, all, all), size))
                },
                _ => false,
            }
        },
{
    if let StepModel::Pencil { state, a: ga, b: gb, size } = solver.resumed(a, params, m, reply) {
        if state.stage is Ritz {
            assert(ga =~= widened_all(handed_out_a(state, size)));
            assert(gb =~= widened_all(handed_out_b(state, size)));
        }
    }
}

/// The handed-out matrices hold the products of the vectors that span the search space with their
/// images.
proof fn lemma_projected<T: Scalar>(
    m: LobpcgModel<T>,
    fa: spec_fn(Seq<T>) -> Seq<T>,
    fb: spec_fn(Seq<T>) -> Seq<T>,
    d: nat,
    k: nat,
    n: nat,
    i: int,
    j: int,
)
    requires
        3 * k <= usize::MAX,
        m.wf(k, n),
        m.stage matches Stage::Ritz { directions } && directions == d,
        is_symmetric_on(fa, n),
        is_symmetric_on(fb, n),
        tracks(m, fa, fb, n),
        normalised(m),
        0 <= i < k + m.active.len() + d,
        0 <= j < k + m.active.len() + d,
    ensures
        ({
            let size = k + m.active.len() + d;
            let space = search_space(m, d, m.x, m.r, m.p);
            &&& handed_out_a(m, size)[i * size + j] == dot_product(space[i], fa(space[j]))
            &&& handed_out_b(m, size)[i * size + j] == dot_product(space[i], fb(space[j]))
        }),
{
    let s = m.active.len();
    let size = k + s + d;
    let (under_a, under_b) = (image_pairs(fa, n), image_pairs(fb, n));
    lemma_search_gram(m, fa, fb, d, k, n);
    lemma_position(i, j, size as int, size as int);
    let full = first_indices(size);
    let space = search_space(m, d, m.x, m.r, m.p);
    let (sa, sb) = (
        search_space(m, d, m.ax, m.ar, m.ap),
        search_space(m, d, m.bx, m.br, m.bp),
    );
    let (ha, hb) = (gram(space, sa, full, full), gram(space, sb, full, full));
    assert(ha[i * size + j] == handed_out_a(m, size)[i * size + j]);
    assert(hb[i * size + j] == handed_out_b(m, size)[i * size + j]);
    lemma_all_related(under_a, m.p, m.ap, m.active);
    lemma_all_related(under_b, m.p, m.bp, m.active);
    if j < k {
        assert(under_a(m.x[j], m.ax[j]) && under_b(m.x[j], m.bx[j]));
    } else if j < k + s {
        let at = m.active[j - k] as int;
        assert(under_a(m.r[at], m.ar[at]) && under_b(m.r[at], m.br[at]));
    } else {
        let at = m.active[j - k - s] as int;
        assert(under_a(m.p[at], m.ap[at]) && under_b(m.p[at], m.bp[at]));
    }
}

/// The same for the initial step.
proof fn lemma_projected_initial<T: Scalar>(
    m: LobpcgModel<T>,
    fa: spec_fn(Seq<T>) -> Seq<T>,
    fb: spec_fn(Seq<T>) -> Seq<T>,
    k: nat,
    n: nat,
    i: int,
    j: int,
)
    requires
        k <= usize::MAX,
        m.wf(k, n),
        m.stage is InitialRitz,
        is_symmetric_on(fa, n),
        is_symmetric_on(fb, n),
        tracks(m, fa, fb, n),
        0 <= i < k,
        0 <= j < k,
    ensures
        ({
            let all = first_indices(k);
            &&& mirrored(gram(m.x, m.ax, all, all), k)[i * k + j] == dot_product(m.x[i], fa(m.x[j]))
            &&& mirrored(gram(m.x, m.bx, all, all), k)[i * k + j] == dot_product(m.x[i], fb(m.x[j]))
        }),
{
    let (under_a, under_b) = (image_pairs(fa, n), image_pairs(fb, n));
    assert forall|c: int| 0 <= c < k implies (#[trigger] m.x[c]).len() == n && m.ax[c] == fa(
        m.x[c],
    ) && m.bx[c] == fb(m.x[c]) by {
        assert(under_a(m.x[c], m.ax[c]) && under_b(m.x[c], m.bx[c]));
    }
    lemma_position(i, j, k as int, k as int);
    lemma_mirrored_gram(m.x, m.ax, fa, n, i, j);
    lemma_mirrored_gram(m.x, m.bx, fb, n, i, j);
}

} // verus!
