//! What the eigenpairs on the free degrees of freedom are for the whole pencil, in exact
//! arithmetic: extended by zero, an eigenvector of `A_ff c = θ M_ff c` satisfies `A v = λ M v`, and
//! vectors that are orthonormal with respect to `M_ff` are orthonormal with respect to `M`.
use super::ame::{
    dense_block, extended, free_dofs, lemma_free_dofs, lists, pencil_residual, AmeResult,
};
use super::orthonormal::lemma_dot_total;
use crate::exact::{
    is_ring, lemma_ring, lemma_times_nought, lemma_total_nought, lemma_total_same, total,
};
use crate::index::lemma_position;
use crate::scalar::{wide_or, Field, Real, Scalar};
use crate::sparse::{
    ascending, collected, diagonal, lemma_lookup, lookup, product, row_product, within, CsrMatrix,
};
use crate::vector::{dot_product, euclidean, zero_vector};
use vstd::prelude::*;

verus! {

/// Converting sums and products of two double-precision numbers gives those of the converted
/// numbers.
pub open spec fn converts<T: Scalar>(a: T::Wide, b: T::Wide) -> bool {
    &&& T::narrowed(a.plus(b)) == T::narrowed(a).plus(T::narrowed(b))
    &&& T::narrowed(a.times(b)) == T::narrowed(a).times(T::narrowed(b))
}

/// A number comes back from double precision as it was.
pub open spec fn returns_from_wide<T: Scalar>(v: T) -> bool {
    T::narrowed(wide_or(v, T::Wide::nought())) == v
}

/// Nothing is rounded on the way to double precision and back.
pub open spec fn converts_exactly<T: Scalar>() -> bool {
    &&& T::narrowed(T::Wide::nought()) == T::nought()
    &&& T::narrowed(T::Wide::unit()) == T::unit()
    &&& forall|a: T::Wide, b: T::Wide| #[trigger] converts::<T>(a, b)
    &&& forall|v: T| #[trigger] returns_from_wide(v)
}

/// Row `r` of a dense `n×n` matrix times column `i` of another one.
pub open spec fn row_times_column<E: Field>(
    matrix: Seq<E>,
    vectors: Seq<E>,
    n: nat,
    r: int,
    i: int,
) -> E {
    total(n, |s: int| matrix[r * n + s].times(vectors[s * n + i]))
}

/// Column `i` of `vectors` is an eigenvector of the dense pencil, for the eigenvalue `theta`.
pub open spec fn is_eigenvector<E: Field>(
    a: Seq<E>,
    m: Seq<E>,
    vectors: Seq<E>,
    n: nat,
    theta: E,
    i: int,
) -> bool {
    forall|r: int|
        0 <= r < n ==> #[trigger] row_times_column(a, vectors, n, r, i) == theta.times(
            row_times_column(m, vectors, n, r, i),
        )
}

/// The product of the columns `i` and `j` of `vectors` with respect to a dense matrix.
pub open spec fn product_under<E: Field>(
    m: Seq<E>,
    vectors: Seq<E>,
    n: nat,
    i: int,
    j: int,
) -> E {
    total(n, |r: int| vectors[r * n + i].times(row_times_column(m, vectors, n, r, j)))
}

/// The rows of the essential degrees of freedom are reduced to the diagonal.
pub open spec fn eliminated<T: Scalar>(mat: CsrMatrix<T>, free: Seq<usize>) -> bool {
    forall|g: int, k: int|
        0 <= g < mat@.len() && !free.contains(g as usize) && 0 <= k < mat@[g].len() ==> (
        #[trigger] mat@[g][k]).0 == g
}

/// The entry of a row in column `g`, zero where none is stored.
pub open spec fn dense_entry<T: Field>(row: Seq<(usize, T)>, g: int) -> T {
    match lookup(row, g as usize) {
        Some(v) => v,
        None => T::nought(),
    }
}

/// A sum over ascending positions is the sum over all of them, where the terms at the other
/// positions are zero.
proof fn lemma_total_listed<E: Field>(n: nat, at: Seq<usize>, f: spec_fn(int) -> E)
    requires
        is_ring::<E>(),
        n <= usize::MAX,
        forall|i: int, j: int| 0 <= i < j < at.len() ==> #[trigger] at[i] < #[trigger] at[j],
        forall|i: int| 0 <= i < at.len() ==> (#[trigger] at[i]) < n,
        forall|g: int|
            0 <= g < n && !at.contains(g as usize) ==> #[trigger] f(g) == E::nought(),
    ensures
        total(at.len(), |k: int| f(at[k] as int)) == total(n, f),
    decreases n,
{
    let picked = |k: int| f(at[k] as int);
    if n > 0 {
        let less = (n - 1) as nat;
        if at.contains(less as usize) {
            let last = at.index_of(less as usize);
            assert(at[last] == less);
            if last < at.len() - 1 {
                assert(at[last] < at[at.len() - 1]);
            }
            let rest = at.drop_last();
            assert forall|i: int| 0 <= i < rest.len() implies (#[trigger] rest[i]) < less by {
                assert(at[i] < at[last]);
            }
            assert forall|g: int| 0 <= g < less && !rest.contains(g as usize) implies #[trigger] f(g)
                == E::nought() by {
                if at.contains(g as usize) {
                    let i = at.index_of(g as usize);
                    assert(at[i] == g as usize);
                    assert(rest[i] == g as usize);
                }
            }
            lemma_total_listed(less, rest, f);
            lemma_total_same(rest.len(), |k: int| f(rest[k] as int), picked);
        } else {
            assert forall|i: int| 0 <= i < at.len() implies (#[trigger] at[i]) < less by {
                if at[i] == less {
                    assert(at.contains(less as usize));
                }
            }
            lemma_total_listed(less, at, f);
            assert(f(less as int) == E::nought());
            lemma_ring(total(less, f), E::nought(), E::nought());
        }
    } else if at.len() > 0 {
        assert(at[0] < n);
    }
}

/// The product of a sparse row with a vector, as a sum.
proof fn lemma_row_total<T: Field>(row: Seq<(usize, T)>, x: Seq<T>, m: nat)
    ensures
        row_product(row, x, m) == total(m, |k: int| row[k].1.times(x[row[k].0 as int])),
    decreases m,
{
    if m > 0 {
        lemma_row_total(row, x, (m - 1) as nat);
    }
}

/// The product of a sparse row with a vector is the sum over all columns.
pub proof fn lemma_row_dense<T: Field>(row: Seq<(usize, T)>, x: Seq<T>, n: nat)
    requires
        is_ring::<T>(),
        n <= usize::MAX,
        ascending(row),
        within(row, n),
    ensures
        row_product(row, x, row.len()) == total(n, |g: int| dense_entry(row, g).times(x[g])),
{
    let f = |g: int| dense_entry(row, g).times(x[g]);
    let at = Seq::new(row.len(), |k: int| row[k].0);
    lemma_row_total(row, x, row.len());
    let (stored, picked) = (
        |k: int| row[k].1.times(x[row[k].0 as int]),
        |k: int| f(at[k] as int),
    );
    assert forall|k: int| 0 <= k < row.len() implies #[trigger] stored(k) == picked(k) by {
        lemma_lookup(row, k);
    }
    lemma_total_same(row.len(), stored, picked);
    assert forall|i: int, j: int| 0 <= i < j < at.len() implies #[trigger] at[i]
        < #[trigger] at[j] by {
        assert(row[i].0 < row[j].0);
    }
    assert forall|i: int| 0 <= i < at.len() implies (#[trigger] at[i]) < n by {
        assert(row[i].0 < n);
    }
    assert forall|g: int| 0 <= g < n && !at.contains(g as usize) implies #[trigger] f(g)
        == T::nought() by {
        if lookup(row, g as usize) is Some {
            let k = choose|k: int| 0 <= k < row.len() && (#[trigger] row[k]).0 == g as usize;
            assert(at[k] == g as usize);
        }
        lemma_times_nought(x[g]);
    }
    lemma_total_listed(n, at, f);
}

/// A sum is converted term by term.
proof fn lemma_total_narrowed<T: Scalar>(n: nat, f: spec_fn(int) -> T::Wide)
    requires
        converts_exactly::<T>(),
    ensures
        T::narrowed(total(n, f)) == total(n, |i: int| T::narrowed(f(i))),
    decreases n,
{
    if n > 0 {
        lemma_total_narrowed::<T>((n - 1) as nat, f);
        assert(converts::<T>(total((n - 1) as nat, f), f(n - 1)));
    }
}

/// The entries of an extended column.
proof fn lemma_extended<T: Scalar>(vectors: Seq<T::Wide>, free: Seq<usize>, i: int, n: nat, s: int)
    requires
        forall|i: int, j: int| 0 <= i < j < free.len() ==> #[trigger] free[i] < #[trigger] free[j],
        forall|i: int| 0 <= i < free.len() ==> (#[trigger] free[i]) < n,
        0 <= s < free.len(),
    ensures
        extended::<T>(vectors, free, i, n)[free[s] as int] == T::narrowed(
            vectors[s * free.len() + i],
        ),
{
    let at = free.index_of(free[s]);
    assert(free.contains(free[s]));
    assert(free[at] == free[s]);
    assert(free[s] < n);
    if at < s {
        assert(free[at] < free[s]);
    } else if s < at {
        assert(free[s] < free[at]);
    }
}

/// A free row of a matrix times an extended column: what the dense block gives, converted.
proof fn lemma_free_row<T: Scalar>(
    mat: CsrMatrix<T>,
    free: Seq<usize>,
    vectors: Seq<T::Wide>,
    i: int,
    r: int,
)
    requires
        is_ring::<T>(),
        converts_exactly::<T>(),
        mat.canonical(),
        mat.width() == mat@.len(),
        mat@.len() <= usize::MAX,
        forall|i: int, j: int| 0 <= i < j < free.len() ==> #[trigger] free[i] < #[trigger] free[j],
        forall|i: int| 0 <= i < free.len() ==> (#[trigger] free[i]) < mat@.len(),
        0 <= r < free.len(),
    ensures
        product(mat@, extended::<T>(vectors, free, i, mat@.len()))[free[r] as int] == T::narrowed(
            row_times_column(dense_block(mat, free), vectors, free.len(), r, i),
        ),
{
    let n = mat@.len();
    let nf = free.len();
    let v = extended::<T>(vectors, free, i, n);
    let row = mat@[free[r] as int];
    assert(free[r] < n);
    let f = |g: int| dense_entry(row, g).times(v[g]);
    lemma_row_dense(row, v, n);
    assert forall|g: int| 0 <= g < n && !free.contains(g as usize) implies #[trigger] f(g)
        == T::nought() by {
        lemma_times_nought(dense_entry(row, g));
    }
    lemma_total_listed(n, free, f);
    let block = dense_block(mat, free);
    let wide = |s: int| block[r * nf + s].times(vectors[s * nf + i]);
    lemma_total_narrowed::<T>(nf, wide);
    let (picked, converted) = (|s: int| f(free[s] as int), |s: int| T::narrowed(wide(s)));
    assert forall|s: int| 0 <= s < nf implies #[trigger] picked(s) == converted(s) by {
        lemma_position(r, s, nf as int, nf as int);
        lemma_extended::<T>(vectors, free, i, n, s);
        assert(converts::<T>(block[r * nf + s], vectors[s * nf + i]));
        match mat.stored(free[r] as int, free[s]) {
            Some(e) => {
                assert(returns_from_wide(e));
            },
            None => {},
        }
    }
    lemma_total_same(nf, picked, converted);
}

/// In exact arithmetic, an eigenpair of `A_ff c = θ M_ff c` gives one of the whole pencil: the
/// column, extended by zero, leaves no residual on the free degrees of freedom. Where the
/// essential rows of both matrices are reduced to the diagonal, it leaves none at all.
pub proof fn lemma_pairs_carry_over<T: Scalar>(
    a: CsrMatrix<T>,
    m: CsrMatrix<T>,
    vectors: Seq<T::Wide>,
    theta: T::Wide,
    i: int,
)
    requires
        is_ring::<T>(),
        converts_exactly::<T>(),
        a.canonical(),
        m.canonical(),
        a.width() == a@.len(),
        m@.len() == a@.len(),
        m.width() == a@.len(),
        a@.len() <= usize::MAX,
        ({
            let free = free_dofs(diagonal(m));
            is_eigenvector(
                dense_block(a, free),
                dense_block(m, free),
                vectors,
                free.len(),
                theta,
                i,
            )
        }),
    ensures
        ({
            let free = free_dofs(diagonal(m));
            let v = extended::<T>(vectors, free, i, a@.len());
            let rest = pencil_residual(a, m, T::narrowed(theta), v);
            &&& forall|r: int|
                0 <= r < free.len() ==> rest[#[trigger] free[r] as int] == T::nought()
            &&& eliminated(a, free) && eliminated(m, free) ==> rest == zero_vector::<T>(a@.len())
        }),
{
    let free = free_dofs(diagonal(m));
    let (n, nf) = (a@.len(), free.len());
    let v = extended::<T>(vectors, free, i, n);
    let lambda = T::narrowed(theta);
    let rest = pencil_residual(a, m, lambda, v);
    lemma_free_dofs(diagonal(m));
    assert forall|r: int| 0 <= r < nf implies rest[#[trigger] free[r] as int] == T::nought() by {
        lemma_free_row(a, free, vectors, i, r);
        lemma_free_row(m, free, vectors, i, r);
        let (under_a, under_m) = (
            row_times_column(dense_block(a, free), vectors, nf, r, i),
            row_times_column(dense_block(m, free), vectors, nf, r, i),
        );
        assert(under_a == theta.times(under_m));
        assert(converts::<T>(theta, under_m));
        lemma_ring(T::narrowed(under_a), T::narrowed(under_a), T::nought());
    }
    if eliminated(a, free) && eliminated(m, free) {
        assert forall|g: int| 0 <= g < n implies rest[g] == T::nought() by {
            if free.contains(g as usize) {
                let r = free.index_of(g as usize);
                assert(free[r] == g as usize);
            } else {
                lemma_essential_row(a, free, v, g);
                lemma_essential_row(m, free, v, g);
                lemma_times_nought(lambda);
                lemma_ring(T::nought(), T::nought(), T::nought());
            }
        }
        assert(rest =~= zero_vector::<T>(n));
    }
}

/// A row that is reduced to the diagonal gives nothing where the vector is zero.
proof fn lemma_essential_row<T: Scalar>(mat: CsrMatrix<T>, free: Seq<usize>, v: Seq<T>, g: int)
    requires
        is_ring::<T>(),
        eliminated(mat, free),
        0 <= g < mat@.len(),
        !free.contains(g as usize),
        v[g] == T::nought(),
    ensures
        product(mat@, v)[g] == T::nought(),
{
    let row = mat@[g];
    lemma_row_total(row, v, row.len());
    let f = |k: int| row[k].1.times(v[row[k].0 as int]);
    assert forall|k: int| 0 <= k < row.len() implies #[trigger] f(k) == T::nought() by {
        assert(mat@[g][k].0 == g);
        lemma_times_nought(row[k].1);
    }
    lemma_total_nought(row.len(), f);
}

/// In exact arithmetic, products with respect to `M_ff` are those with respect to `M`.
pub proof fn lemma_products_carry_over<T: Scalar>(
    m: CsrMatrix<T>,
    vectors: Seq<T::Wide>,
    i: int,
    j: int,
)
    requires
        is_ring::<T>(),
        converts_exactly::<T>(),
        m.canonical(),
        m.width() == m@.len(),
        m@.len() <= usize::MAX,
    ensures
        ({
            let free = free_dofs(diagonal(m));
            let u = extended::<T>(vectors, free, i, m@.len());
            let v = extended::<T>(vectors, free, j, m@.len());
            dot_product(u, product(m@, v)) == T::narrowed(
                product_under(dense_block(m, free), vectors, free.len(), i, j),
            )
        }),
{
    let free = free_dofs(diagonal(m));
    let (n, nf) = (m@.len(), free.len());
    let (u, v) = (
        extended::<T>(vectors, free, i, n),
        extended::<T>(vectors, free, j, n),
    );
    let mv = product(m@, v);
    let block = dense_block(m, free);
    lemma_free_dofs(diagonal(m));
    lemma_dot_total(u, mv, n);
    let f = |g: int| u[g].times(mv[g]);
    assert forall|g: int| 0 <= g < n && !free.contains(g as usize) implies #[trigger] f(g)
        == T::nought() by {
        lemma_times_nought(mv[g]);
    }
    lemma_total_listed(n, free, f);
    let wide = |r: int| vectors[r * nf + i].times(row_times_column(block, vectors, nf, r, j));
    lemma_total_narrowed::<T>(nf, wide);
    let (picked, converted) = (|r: int| f(free[r] as int), |r: int| T::narrowed(wide(r)));
    assert forall|r: int| 0 <= r < nf implies #[trigger] picked(r) == converted(r) by {
        lemma_free_row(m, free, vectors, j, r);
        lemma_extended::<T>(vectors, free, i, n, r);
        assert(converts::<T>(vectors[r * nf + i], row_times_column(block, vectors, nf, r, j)));
    }
    lemma_total_same(nf, picked, converted);
}

/// In exact arithmetic, columns that are orthonormal with respect to `M_ff` are, extended by zero,
/// orthonormal with respect to `M`.
pub proof fn lemma_orthonormality_carries_over<T: Scalar>(
    m: CsrMatrix<T>,
    vectors: Seq<T::Wide>,
    i: int,
    j: int,
)
    requires
        is_ring::<T>(),
        converts_exactly::<T>(),
        m.canonical(),
        m.width() == m@.len(),
        m@.len() <= usize::MAX,
        ({
            let free = free_dofs(diagonal(m));
            product_under(dense_block(m, free), vectors, free.len(), i, j) == (if i == j {
                T::Wide::unit()
            } else {
                T::Wide::nought()
            })
        }),
    ensures
        ({
            let free = free_dofs(diagonal(m));
            let u = extended::<T>(vectors, free, i, m@.len());
            let v = extended::<T>(vectors, free, j, m@.len());
            dot_product(u, product(m@, v)) == (if i == j {
                T::unit()
            } else {
                T::nought()
            })
        }),
{
    lemma_products_carry_over(m, vectors, i, j);
}

/// In exact arithmetic, what [`super::ame::AmeSolver::finish`] lists are eigenpairs of the whole
/// pencil: where the decomposition that it was given is one of the free pencil, and the essential
/// rows are reduced to the diagonal, `A v = λ M v` for every pair, and the eigenvectors are
/// orthonormal with respect to `M`.
pub proof fn lemma_results_are_eigenpairs<T: Scalar>(
    result: AmeResult<T>,
    a: CsrMatrix<T>,
    m: CsrMatrix<T>,
    values: Seq<T::Wide>,
    vectors: Seq<T::Wide>,
    picks: Seq<usize>,
    i: int,
    j: int,
)
    requires
        is_ring::<T>(),
        converts_exactly::<T>(),
        a.canonical(),
        m.canonical(),
        a.width() == a@.len(),
        m@.len() == a@.len(),
        m.width() == a@.len(),
        a@.len() <= usize::MAX,
        lists(result, a, m, free_dofs(diagonal(m)), values, vectors, picks),
        0 <= i < picks.len(),
        0 <= j < picks.len(),
        i != j ==> picks[i] != picks[j],
        eliminated(a, free_dofs(diagonal(m))),
        eliminated(m, free_dofs(diagonal(m))),
        ({
            let free = free_dofs(diagonal(m));
            let (p, q) = (picks[i] as int, picks[j] as int);
            let (block_a, block_m) = (dense_block(a, free), dense_block(m, free));
            &&& is_eigenvector(block_a, block_m, vectors, free.len(), values[p], p)
            &&& product_under(block_m, vectors, free.len(), p, q) == (if p == q {
                T::Wide::unit()
            } else {
                T::Wide::nought()
            })
        }),
    ensures
        ({
            let (u, v) = (result.eigenvectors@[i]@, result.eigenvectors@[j]@);
            &&& pencil_residual(a, m, result.eigenvalues@[i], u) == zero_vector::<T>(a@.len())
            &&& result.residuals@[i] == euclidean(zero_vector::<T>(a@.len()))
            &&& dot_product(u, product(m@, v)) == (if i == j {
                T::unit()
            } else {
                T::nought()
            })
        }),
{
    let (p, q) = (picks[i] as int, picks[j] as int);
    assert(result.eigenvalues@[i] == T::narrowed(values[p]));
    assert(result.eigenvalues@[j] == T::narrowed(values[q]));
    lemma_pairs_carry_over(a, m, vectors, values[p], p);
    lemma_orthonormality_carries_over(m, vectors, p, q);
}

/// In exact arithmetic, the residual that is reported for a pair vanishes at an entry exactly where
/// `A v = λ M v` holds there.
pub proof fn lemma_pencil_residual<T: Scalar>(
    a: CsrMatrix<T>,
    m: CsrMatrix<T>,
    lambda: T,
    v: Seq<T>,
    i: int,
)
    requires
        is_ring::<T>(),
        0 <= i < v.len(),
    ensures
        pencil_residual(a, m, lambda, v)[i] == T::nought() <==> product(a@, v)[i] == lambda.times(
            product(m@, v)[i],
        ),
{
    let (u, w, zero) = (product(a@, v)[i], lambda.times(product(m@, v)[i]), T::nought());
    lemma_ring(u, w, zero);
    lemma_ring(u, w.negated(), w);
    lemma_ring(w.negated(), w, zero);
    lemma_ring(w, w, zero);
    lemma_ring(u, zero, zero);
    lemma_ring(w, zero, zero);
    lemma_ring(u, u, zero);
}

/// In exact arithmetic, an entry of the product of a sparse matrix with a vector is the sum over all
/// columns of the entry that is stored there, or zero, times the entry of the vector.
pub proof fn lemma_sparse_product<T: Field>(m: CsrMatrix<T>, x: Seq<T>, r: int)
    requires
        is_ring::<T>(),
        m.canonical(),
        m.width() <= usize::MAX,
        0 <= r < m@.len(),
    ensures
        product(m@, x)[r] == total(
            m.width(),
            |c: int|
                (match m.stored(r, c as usize) {
                    Some(v) => v,
                    None => T::nought(),
                }).times(x[c]),
        ),
{
    let n = m.width();
    assert(ascending(m@[r]) && within(m@[r], n));
    lemma_row_dense(m@[r], x, n);
    let (given, wanted) = (
        |g: int| dense_entry(m@[r], g).times(x[g]),
        |c: int|
            (match m.stored(r, c as usize) {
                Some(v) => v,
                None => T::nought(),
            }).times(x[c]),
    );
    lemma_total_same(n, given, wanted);
}

/// A degree of freedom is free exactly where its diagonal entry in `M`, in double precision, exceeds
/// 1e-100; the free ones are listed in ascending order.
pub proof fn lemma_free_exactly<T: Scalar>(m: CsrMatrix<T>, g: usize)
    requires
        m@.len() <= usize::MAX,
        g < m@.len(),
    ensures
        free_dofs(diagonal(m)).contains(g) <==> T::Wide::scaled(1, -100).less(
            wide_or(
                match m.stored(g as int, g) {
                    Some(v) => v,
                    None => T::nought(),
                },
                T::Wide::nought(),
            ),
        ),
        forall|i: int, j: int|
            0 <= i < j < free_dofs(diagonal(m)).len() ==> #[trigger] free_dofs(diagonal(m))[i]
                < #[trigger] free_dofs(diagonal(m))[j],
{
    lemma_free_dofs(diagonal(m));
    assert(diagonal(m)[g as int] == (match m.stored(g as int, g) {
        Some(v) => v,
        None => T::nought(),
    }));
}

/// In exact arithmetic, entries at the same place of a matrix under construction add up.
pub proof fn lemma_entries_add_up<T: Field>(
    entries: Seq<(usize, usize, T)>,
    row: usize,
    col: usize,
)
    requires
        is_ring::<T>(),
    ensures
        (match collected(entries, row, col) {
            Some(v) => v,
            None => T::nought(),
        }) == total(
            entries.len(),
            |k: int|
                if entries[k].0 == row && entries[k].1 == col {
                    entries[k].2
                } else {
                    T::nought()
                },
        ),
        collected(entries, row, col) is None <==> forall|k: int|
            0 <= k < entries.len() ==> !((#[trigger] entries[k]).0 == row && entries[k].1 == col),
    decreases entries.len(),
{
    let zero = T::nought();
    let term = |k: int|
        if entries[k].0 == row && entries[k].1 == col {
            entries[k].2
        } else {
            zero
        };
    if entries.len() > 0 {
        let rest = entries.drop_last();
        lemma_entries_add_up(rest, row, col);
        let before = |k: int|
            if rest[k].0 == row && rest[k].1 == col {
                rest[k].2
            } else {
                zero
            };
        lemma_total_same(rest.len(), before, term);
        let sum = total(rest.len(), term);
        lemma_ring(sum, zero, zero);
        lemma_ring(entries.last().2, zero, zero);
        assert(forall|k: int| 0 <= k < rest.len() ==> #[trigger] rest[k] == entries[k]);
        if collected(entries, row, col) is None {
            assert forall|k: int| 0 <= k < entries.len() implies !((#[trigger] entries[k]).0 == row
                && entries[k].1 == col) by {
                if k < rest.len() {
                    assert(rest[k] == entries[k]);
                }
            }
        } else {
            if collected(rest, row, col) is Some {
                let k = choose|k: int|
                    0 <= k < rest.len() && (#[trigger] rest[k]).0 == row && rest[k].1 == col;
                assert(entries[k] == rest[k]);
            } else {
                assert(entries[entries.len() - 1] == entries.last());
            }
        }
    }
}

/// The block that is handed out holds the stored entries of the matrix, in double precision, at the
/// free rows and columns, and zero where none is stored.
pub proof fn lemma_block_entries<T: Scalar>(mat: CsrMatrix<T>, free: Seq<usize>, r: int, s: int)
    requires
        0 <= r < free.len(),
        0 <= s < free.len(),
    ensures
        dense_block(mat, free).len() == free.len() * free.len(),
        dense_block(mat, free)[r * free.len() + s] == (match mat.stored(free[r] as int, free[s]) {
            Some(v) => wide_or(v, T::Wide::nought()),
            None => T::Wide::nought(),
        }),
{
    lemma_position(r, s, free.len() as int, free.len() as int);
}

} // verus!
