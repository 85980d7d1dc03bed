//! What multiplying a block by a matrix does to its Gram matrix, in exact arithmetic.
use super::block::{
    accumulate, combined, first_indices, gram, matrix_column, mirrored, transposed,
};
use crate::exact::{
    is_ring, lemma_ring, lemma_total_same, lemma_total_swap, lemma_total_times, total,
};
use crate::index::{lemma_position, lemma_row_and_column};
use crate::order::gather;
use crate::scalar::Field;
use crate::vector::{dot_product, dot_sum, zero_vector};
use vstd::prelude::*;

verus! {

/// A dot product as a sum.
pub proof fn lemma_dot_total<T: Field>(x: Seq<T>, y: Seq<T>, n: nat)
    ensures
        dot_sum(x, y, n) == total(n, |t: int| x[t].times(y[t])),
    decreases n,
{
    if n > 0 {
        lemma_dot_total(x, y, (n - 1) as nat);
    }
}

/// An entry of a combination of vectors as a sum.
pub proof fn lemma_accumulate_total<T: Field>(
    n: nat,
    coefficients: Seq<T>,
    vectors: Seq<Seq<T>>,
    m: nat,
    t: int,
)
    requires
        0 <= t < n,
    ensures
        accumulate(zero_vector::<T>(n), coefficients, vectors, m).len() == n,
        accumulate(zero_vector::<T>(n), coefficients, vectors, m)[t] == total(
            m,
            |a: int| coefficients[a].times(vectors[a][t]),
        ),
    decreases m,
{
    if m > 0 {
        lemma_accumulate_total(n, coefficients, vectors, (m - 1) as nat, t);
    }
}

/// Entry `(i, j)` of `Rᵀ·G·R` for matrices with `w` rows and columns.
pub open spec fn congruent_entry<T: Field>(r: Seq<T>, g: Seq<T>, w: nat, i: int, j: int) -> T {
    total(
        w,
        |a: int|
            total(w, |b: int| r[a * w + i].times(r[b * w + j].times(g[a * w + b]))),
    )
}

/// In exact arithmetic, multiplying two blocks by a matrix `R` turns their Gram matrix `G` into
/// `Rᵀ·G·R`.
pub proof fn lemma_gram_combined<T: Field>(
    x: Seq<Seq<T>>,
    y: Seq<Seq<T>>,
    rows: Seq<usize>,
    r: Seq<T>,
    n: nat,
    i: int,
    j: int,
)
    requires
        is_ring::<T>(),
        rows.len() <= usize::MAX,
        forall|a: int| 0 <= a < rows.len() ==> x[#[trigger] rows[a] as int].len() == n,
        0 <= i < rows.len(),
        0 <= j < rows.len(),
    ensures
        ({
            let w = rows.len();
            let all = first_indices(w);
            gram(combined(x, rows, r, w, n), combined(y, rows, r, w, n), all, all)[i * w + j]
                == congruent_entry(r, gram(x, y, rows, rows), w, i, j)
        }),
{
    let w = rows.len();
    let all = first_indices(w);
    let (cx, cy) = (combined(x, rows, r, w, n), combined(y, rows, r, w, n));
    let (gx, gy) = (gather(x, rows), gather(y, rows));
    let g = gram(x, y, rows, rows);
    lemma_position(i, j, w as int, w as int);
    let (u, v) = (cx[i], cy[j]);
    assert(gram(cx, cy, all, all)[i * w + j] == dot_product(u, v));
    let (p, q) = (matrix_column(r, w, w, i), matrix_column(r, w, w, j));
    super::block::lemma_accumulate_length(zero_vector::<T>(n), p, gx, w);
    lemma_dot_total(u, v, n);
    // The product of two sums, entry by entry.
    let f = |t: int, a: int|
        total(w, |b: int| p[a].times(gx[a][t]).times(q[b].times(gy[b][t])));
    let product = |t: int| u[t].times(v[t]);
    let spread = |t: int| total(w, |a: int| f(t, a));
    assert forall|t: int| 0 <= t < n implies #[trigger] product(t) == spread(t) by {
        lemma_accumulate_total(n, p, gx, w, t);
        lemma_accumulate_total(n, q, gy, w, t);
        let left = |a: int| p[a].times(gx[a][t]);
        let right = |b: int| q[b].times(gy[b][t]);
        lemma_total_times(w, total(w, right), left);
        let outer = |a: int| left(a).times(total(w, right));
        let inner = |a: int| f(t, a);
        assert forall|a: int| 0 <= a < w implies #[trigger] outer(a) == inner(a) by {
            lemma_total_times(w, left(a), right);
            lemma_total_same(
                w,
                |b: int| left(a).times(right(b)),
                |b: int| p[a].times(gx[a][t]).times(q[b].times(gy[b][t])),
            );
        }
        lemma_total_same(w, outer, inner);
    }
    lemma_total_same(n, product, spread);
    lemma_total_swap(n, w, f);
    // The sums over the entries are the entries of the Gram matrix.
    let rows_done = |a: int| total(n, |t: int| f(t, a));
    let want = |a: int|
        total(w, |b: int| r[a * w + i].times(r[b * w + j].times(g[a * w + b])));
    assert forall|a: int| 0 <= a < w implies #[trigger] rows_done(a) == want(a) by {
        let h = |t: int, b: int| p[a].times(gx[a][t]).times(q[b].times(gy[b][t]));
        lemma_total_swap(n, w, h);
        let (before, after) = (|t: int| f(t, a), |t: int| total(w, |b: int| h(t, b)));
        assert forall|t: int| 0 <= t < n implies #[trigger] before(t) == after(t) by {
            lemma_total_same(
                w,
                |b: int| p[a].times(gx[a][t]).times(q[b].times(gy[b][t])),
                |b: int| h(t, b),
            );
        }
        lemma_total_same(n, before, after);
        let swapped = |b: int| total(n, |t: int| h(t, b));
        let entry = |b: int| r[a * w + i].times(r[b * w + j].times(g[a * w + b]));
        assert forall|b: int| 0 <= b < w implies #[trigger] swapped(b) == entry(b) by {
            lemma_position(a, b, w as int, w as int);
            assert(x[rows[a] as int].len() == n);
            lemma_dot_total(gx[a], gy[b], n);
            assert(g[a * w + b] == dot_product(gx[a], gy[b]));
            let plain = |t: int| gx[a][t].times(gy[b][t]);
            lemma_total_times(n, q[b], plain);
            let once = |t: int| q[b].times(plain(t));
            lemma_total_times(n, p[a], once);
            let twice = |t: int| p[a].times(once(t));
            let column = |t: int| h(t, b);
            assert forall|t: int| 0 <= t < n implies #[trigger] column(t) == twice(t) by {
                let (pa, xa, qb, yb) = (p[a], gx[a][t], q[b], gy[b][t]);
                lemma_ring(pa, xa, qb.times(yb));
                lemma_ring(xa, qb, yb);
                lemma_ring(qb, xa, yb);
            }
            lemma_total_same(n, column, twice);
            lemma_total_same(n, |t: int| gx[a][t].times(gy[b][t]), plain);
        }
        lemma_total_same(w, swapped, entry);
    }
    lemma_total_same(w, rows_done, want);
}

/// In exact arithmetic, multiplying a block by the inverse `U⁻¹` of the upper Cholesky factor of
/// its Gram matrix makes it orthonormal: `U⁻ᵀ·G·U⁻¹` is the identity, and that is its new Gram
/// matrix.
pub proof fn lemma_orthonormalised<T: Field>(
    x: Seq<Seq<T>>,
    y: Seq<Seq<T>>,
    rows: Seq<usize>,
    r: Seq<T>,
    n: nat,
)
    requires
        is_ring::<T>(),
        rows.len() <= usize::MAX,
        forall|a: int| 0 <= a < rows.len() ==> x[#[trigger] rows[a] as int].len() == n,
        forall|i: int, j: int|
            0 <= i < rows.len() && 0 <= j < rows.len() ==> #[trigger] congruent_entry(
                r,
                gram(x, y, rows, rows),
                rows.len(),
                i,
                j,
            ) == (if i == j {
                T::unit()
            } else {
                T::nought()
            }),
    ensures
        ({
            let w = rows.len();
            let all = first_indices(w);
            let g = gram(combined(x, rows, r, w, n), combined(y, rows, r, w, n), all, all);
            forall|i: int, j: int|
                0 <= i < w && 0 <= j < w ==> #[trigger] g[i * w + j] == (if i == j {
                    T::unit()
                } else {
                    T::nought()
                })
        }),
{
    let w = rows.len();
    let all = first_indices(w);
    let g = gram(combined(x, rows, r, w, n), combined(y, rows, r, w, n), all, all);
    assert forall|i: int, j: int| 0 <= i < w && 0 <= j < w implies #[trigger] g[i * w + j] == (if i
        == j {
        T::unit()
    } else {
        T::nought()
    }) by {
        lemma_gram_combined(x, y, rows, r, n, i, j);
        assert(congruent_entry(r, gram(x, y, rows, rows), w, i, j) == (if i == j {
            T::unit()
        } else {
            T::nought()
        }));
    }
}

/// Exchanging the two factors leaves a dot product as it is.
proof fn lemma_dot_exchanged<T: Field>(x: Seq<T>, y: Seq<T>, n: nat)
    ensures
        dot_sum(x, y, n) == dot_sum(y, x, n),
    decreases n,
{
    if n > 0 {
        lemma_dot_exchanged(x, y, (n - 1) as nat);
        T::lemma_commutes(x[n - 1], y[n - 1]);
    }
}

/// Transposing exchanges rows and columns.
pub proof fn lemma_transposed_entry<T>(m: Seq<T>, n: nat, i: int, j: int)
    requires
        0 <= i < n,
        0 <= j < n,
    ensures
        transposed(m, n).len() == n * n,
        transposed(m, n)[i * n + j] == m[j * n + i],
{
    lemma_position(i, j, n as int, n as int);
}

/// Every column of a combined block is the sum of the listed columns, each times the entry of the
/// matrix in its row.
pub proof fn lemma_combined_entry<T: Field>(
    y: Seq<Seq<T>>,
    rows: Seq<usize>,
    r: Seq<T>,
    w: nat,
    n: nat,
    j: int,
    t: int,
)
    requires
        0 <= j < w,
        0 <= t < n,
    ensures
        combined(y, rows, r, w, n).len() == w,
        combined(y, rows, r, w, n)[j].len() == n,
        combined(y, rows, r, w, n)[j][t] == total(
            rows.len(),
            |a: int| r[a * w + j].times(y[rows[a] as int][t]),
        ),
{
    let column = matrix_column(r, rows.len(), w, j);
    let picked = gather(y, rows);
    lemma_accumulate_total(n, column, picked, rows.len(), t);
    lemma_total_same(
        rows.len(),
        |a: int| column[a].times(picked[a][t]),
        |a: int| r[a * w + j].times(y[rows[a] as int][t]),
    );
}

/// Exchanging the two blocks, and the two lists with them, transposes their Gram matrix: what
/// [`super::block::gram_sub`] gives for `(y, x, cols, rows)` is the transpose of what it gives for
/// `(x, y, rows, cols)`, rounding included.
pub proof fn lemma_gram_transposed<T: Field>(
    x: Seq<Seq<T>>,
    y: Seq<Seq<T>>,
    rows: Seq<usize>,
    cols: Seq<usize>,
    n: nat,
    i: int,
    j: int,
)
    requires
        forall|a: int| 0 <= a < rows.len() ==> x[#[trigger] rows[a] as int].len() == n,
        forall|b: int| 0 <= b < cols.len() ==> y[#[trigger] cols[b] as int].len() == n,
        0 <= i < rows.len(),
        0 <= j < cols.len(),
    ensures
        gram(y, x, cols, rows).len() == gram(x, y, rows, cols).len(),
        gram(y, x, cols, rows)[j * rows.len() + i] == gram(x, y, rows, cols)[i * cols.len() + j],
{
    let (h, w) = (rows.len() as int, cols.len() as int);
    lemma_position(i, j, h, w);
    lemma_position(j, i, w, h);
    assert(h * w == w * h) by (nonlinear_arith);
    let (u, v) = (x[rows[i] as int], y[cols[j] as int]);
    assert(u.len() == n && v.len() == n);
    lemma_dot_exchanged(u, v, n);
}

/// Mirroring makes the matrix symmetric, leaves its diagonal and lower triangle and what stands after
/// it as they were, and changes nothing the second time.
pub proof fn lemma_mirrored<T>(m: Seq<T>, n: nat)
    requires
        m.len() >= n * n,
    ensures
        forall|i: int, j: int|
            0 <= i < n && 0 <= j < n ==> #[trigger] mirrored(m, n)[i * n + j] == mirrored(m, n)[j * n
                + i],
        forall|i: int, j: int|
            0 <= j <= i < n ==> #[trigger] mirrored(m, n)[i * n + j] == m[i * n + j],
        forall|p: int| n * n <= p < m.len() ==> #[trigger] mirrored(m, n)[p] == m[p],
        mirrored(mirrored(m, n), n) == mirrored(m, n),
{
    let once = mirrored(m, n);
    assert forall|i: int, j: int| 0 <= i < n && 0 <= j < n implies #[trigger] once[i * n + j]
        == once[j * n + i] by {
        lemma_position(i, j, n as int, n as int);
        lemma_position(j, i, n as int, n as int);
    }
    assert forall|i: int, j: int| 0 <= j <= i < n implies #[trigger] once[i * n + j] == m[i * n
        + j] by {
        lemma_position(i, j, n as int, n as int);
    }
    let twice = mirrored(once, n);
    assert forall|p: int| 0 <= p < m.len() implies twice[p] == once[p] by {
        if p < n * n {
            lemma_row_and_column(p, n as int, n as int);
            let (i, j) = (p / n as int, p % n as int);
            assert(once[i * n + j] == once[j * n + i]);
        }
    }
    assert(twice =~= once);
}

} // verus!
