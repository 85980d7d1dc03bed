//! Linear algebra on blocks of column vectors, as block eigensolvers need it.
use crate::index::{lemma_position, lemma_row_and_column};
use crate::order::gather;
use crate::scalar::Field;
use crate::vector::{columns, dot, dot_product, plus_multiple, zero_vector, DenseVec};
use vstd::prelude::*;

verus! {

/// Every column has `n` entries.
pub open spec fn all_of_length<T>(block: Seq<Seq<T>>, n: nat) -> bool {
    forall|j: int| 0 <= j < block.len() ==> (#[trigger] block[j]).len() == n
}

/// Every listed row is smaller than `bound`.
pub open spec fn all_below(rows: Seq<usize>, bound: nat) -> bool {
    forall|i: int| 0 <= i < rows.len() ==> (#[trigger] rows[i]) < bound
}

/// Every listed column has `n` entries.
pub open spec fn listed_of_length<T>(block: Seq<Seq<T>>, rows: Seq<usize>, n: nat) -> bool {
    forall|i: int| 0 <= i < rows.len() ==> block[#[trigger] rows[i] as int].len() == n
}

/// The listed columns of `x` have the length of those of `y`.
pub open spec fn matching<T>(
    x: Seq<Seq<T>>,
    y: Seq<Seq<T>>,
    rows: Seq<usize>,
    cols: Seq<usize>,
) -> bool {
    forall|i: int, j: int|
        0 <= i < rows.len() && 0 <= j < cols.len() ==> x[#[trigger] rows[i] as int].len()
            == y[#[trigger] cols[j] as int].len()
}

/// The first `count` indices.
pub open spec fn first_indices(count: nat) -> Seq<usize> {
    Seq::new(count, |i: int| i as usize)
}

/// The dot products of the listed columns of `x` with the listed columns of `y`, row
/// after row.
pub open spec fn gram<T: Field>(
    x: Seq<Seq<T>>,
    y: Seq<Seq<T>>,
    rows: Seq<usize>,
    cols: Seq<usize>,
) -> Seq<T> {
    Seq::new(
        rows.len() * cols.len(),
        |p: int|
            dot_product(
                x[rows[p / cols.len() as int] as int],
                y[cols[p % cols.len() as int] as int],
            ),
    )
}

/// `start + Σ coefficients[i]·vectors[i]` over the first `m` vectors, added one after
/// the other.
pub open spec fn accumulate<T: Field>(
    start: Seq<T>,
    coefficients: Seq<T>,
    vectors: Seq<Seq<T>>,
    m: nat,
) -> Seq<T>
    decreases m,
{
    if m == 0 {
        start
    } else {
        plus_multiple(
            accumulate(start, coefficients, vectors, (m - 1) as nat),
            coefficients[m - 1],
            vectors[m - 1],
        )
    }
}

/// Column `j` of a matrix with `h` rows and `w` columns.
pub open spec fn matrix_column<T>(r: Seq<T>, h: nat, w: nat, j: int) -> Seq<T> {
    Seq::new(h, |i: int| r[i * w + j])
}

/// The listed columns of `y`, multiplied from the right by a matrix with `w` columns:
/// a block of `w` columns of length `n`.
pub open spec fn combined<T: Field>(
    y: Seq<Seq<T>>,
    rows: Seq<usize>,
    r: Seq<T>,
    w: nat,
    n: nat,
) -> Seq<Seq<T>> {
    Seq::new(
        w,
        |j: int|
            accumulate(
                zero_vector::<T>(n),
                matrix_column(r, rows.len(), w, j),
                gather(y, rows),
                rows.len(),
            ),
    )
}

/// The transpose of an `n×n` matrix.
pub open spec fn transposed<T>(m: Seq<T>, n: nat) -> Seq<T> {
    Seq::new(n * n, |p: int| m[(p % n as int) * n + p / n as int])
}

/// An `n×n` matrix with its upper triangle replaced by the mirrored lower one. What stands after
/// the matrix stays as it is.
pub open spec fn mirrored<T>(m: Seq<T>, n: nat) -> Seq<T> {
    Seq::new(
        m.len(),
        |p: int|
            if p < n * n && p / (n as int) < p % (n as int) {
                m[(p % n as int) * n + p / n as int]
            } else {
                m[p]
            },
    )
}

/// The residual `λ·bx − ax`.
pub open spec fn residual<T: Field>(bx: Seq<T>, ax: Seq<T>, lambda: T) -> Seq<T> {
    Seq::new(bx.len(), |i: int| lambda.times(bx[i]).minus(ax[i]))
}

/// A block with the columns listed among the first `m` rows replaced by the columns of
/// `new`, in the order of the list.
pub open spec fn scattered<A>(block: Seq<A>, rows: Seq<usize>, new: Seq<A>, m: nat) -> Seq<A>
    decreases m,
{
    if m == 0 {
        block
    } else {
        scattered(block, rows, new, (m - 1) as nat).update(rows[m - 1] as int, new[m - 1])
    }
}

/// An accumulated sum has the length of its start.
pub proof fn lemma_accumulate_length<T: Field>(
    start: Seq<T>,
    coefficients: Seq<T>,
    vectors: Seq<Seq<T>>,
    m: nat,
)
    ensures
        accumulate(start, coefficients, vectors, m).len() == start.len(),
    decreases m,
{
    if m > 0 {
        lemma_accumulate_length(start, coefficients, vectors, (m - 1) as nat);
    }
}

/// The first `count` indices, in order.
pub fn index_range(count: usize) -> (r: Vec<usize>)
    ensures
        r@ == first_indices(count as nat),
{
    let mut out: Vec<usize> = Vec::new();
    let mut i: usize = 0;
    while i < count
        invariant
            i <= count,
            out@ == first_indices(i as nat),
        decreases count - i,
    {
        out.push(i);
        i = i + 1;
        assert(out@ =~= first_indices(i as nat));
    }
    out
}

/// The Gram block of the listed columns: entry `(i, j)` is the dot product of column
/// `rows[i]` of `x` with column `cols[j]` of `y`.
pub fn gram_sub<T: Field>(
    x: &Vec<DenseVec<T>>,
    y: &Vec<DenseVec<T>>,
    rows: &Vec<usize>,
    cols: &Vec<usize>,
) -> (g: Vec<T>)
    requires
        all_below(rows@, x@.len()),
        all_below(cols@, y@.len()),
        matching(columns(x@), columns(y@), rows@, cols@),
        rows@.len() * cols@.len() <= usize::MAX,
    ensures
        g@ == gram(columns(x@), columns(y@), rows@, cols@),
{
    let m = rows.len();
    let w = cols.len();
    let mut g: Vec<T> = Vec::new();
    let mut i: usize = 0;
    while i < m
        invariant
            i <= m,
            m == rows@.len(),
            w == cols@.len(),
            all_below(rows@, x@.len()),
            all_below(cols@, y@.len()),
            matching(columns(x@), columns(y@), rows@, cols@),
            g@.len() == i * w,
            forall|p: int|
                0 <= p < i * w ==> g@[p] == gram(columns(x@), columns(y@), rows@, cols@)[p],
        decreases m - i,
    {
        let xv = x[rows[i]].as_slice();
        let mut j: usize = 0;
        assert(i * w + w == (i + 1) * w) by (nonlinear_arith);
        assert((i + 1) * w <= m * w) by (nonlinear_arith)
            requires
                i + 1 <= m,
        ;
        while j < w
            invariant
                i < m,
                j <= w,
                m == rows@.len(),
                w == cols@.len(),
                i * w + w == (i + 1) * w,
                (i + 1) * w <= m * w,
                all_below(rows@, x@.len()),
                all_below(cols@, y@.len()),
                matching(columns(x@), columns(y@), rows@, cols@),
                xv@ == x@[rows@[i as int] as int]@,
                g@.len() == i * w + j,
                forall|p: int|
                    0 <= p < i * w + j ==> g@[p] == gram(
                        columns(x@),
                        columns(y@),
                        rows@,
                        cols@,
                    )[p],
            decreases w - j,
        {
            assert(columns(x@)[rows@[i as int] as int].len() == columns(
                y@,
            )[cols@[j as int] as int].len());
            g.push(dot(xv, y[cols[j]].as_slice()));
            proof {
                lemma_position(i as int, j as int, m as int, w as int);
            }
            j = j + 1;
        }
        i = i + 1;
    }
    assert(g@ =~= gram(columns(x@), columns(y@), rows@, cols@));
    g
}

/// Adds to `target` the listed columns of `block`, each multiplied by its coefficient;
/// the coefficients stand in `coefficients` from position `offset` on.
pub fn add_combination<T: Field>(
    target: &mut DenseVec<T>,
    coefficients: &Vec<T>,
    offset: usize,
    block: &Vec<DenseVec<T>>,
    rows: &Vec<usize>,
)
    requires
        all_below(rows@, block@.len()),
        listed_of_length(columns(block@), rows@, old(target)@.len()),
        offset + rows@.len() <= coefficients@.len(),
    ensures
        final(target)@ == accumulate(
            old(target)@,
            coefficients@.subrange(offset as int, offset + rows@.len()),
            gather(columns(block@), rows@),
            rows@.len(),
        ),
        final(target)@.len() == old(target)@.len(),
{
    let ghost start = target@;
    let ghost c = coefficients@.subrange(offset as int, offset + rows@.len());
    let ghost v = gather(columns(block@), rows@);
    let mut i: usize = 0;
    while i < rows.len()
        invariant
            i <= rows@.len(),
            offset + rows@.len() <= coefficients.len(),
            all_below(rows@, block@.len()),
            listed_of_length(columns(block@), rows@, start.len()),
            c == coefficients@.subrange(offset as int, offset + rows@.len()),
            v == gather(columns(block@), rows@),
            target@ == accumulate(start, c, v, i as nat),
            target@.len() == start.len(),
        decreases rows@.len() - i,
    {
        assert(columns(block@)[rows@[i as int] as int].len() == start.len());
        target.axpy(coefficients[offset + i], &block[rows[i]]);
        i = i + 1;
    }
}

/// The listed columns of `y`, multiplied from the right by a matrix with `w` columns
/// that is stored row after row: column `j` of the result is `Σ_i y[rows[i]]·r[i][j]`.
/// What stands after the matrix is not read.
pub fn vecs_combine<T: Field>(
    y: &Vec<DenseVec<T>>,
    rows: &Vec<usize>,
    r: &Vec<T>,
    w: usize,
) -> (out: Vec<DenseVec<T>>)
    requires
        y@.len() > 0,
        all_below(rows@, y@.len()),
        listed_of_length(columns(y@), rows@, y@[0]@.len()),
        r@.len() >= rows@.len() * w,
    ensures
        out@.len() == w,
        columns(out@) == combined(columns(y@), rows@, r@, w as nat, y@[0]@.len()),
        all_of_length(columns(out@), y@[0]@.len()),
{
    let n = y[0].len();
    let h = rows.len();
    let mut out: Vec<DenseVec<T>> = Vec::new();
    let ghost want = combined(columns(y@), rows@, r@, w as nat, n as nat);
    let mut j: usize = 0;
    while j < w
        invariant
            j <= w,
            h == rows@.len(),
            all_below(rows@, y@.len()),
            listed_of_length(columns(y@), rows@, n as nat),
            r.len() >= h * w,
            want == combined(columns(y@), rows@, r@, w as nat, n as nat),
            out@.len() == j,
            forall|c: int| 0 <= c < j ==> (#[trigger] out@[c])@ == want[c] && out@[c]@.len() == n,
        decreases w - j,
    {
        let mut column = DenseVec::<T>::zeros(n);
        let ghost start = column@;
        let ghost c = matrix_column(r@, h as nat, w as nat, j as int);
        let ghost v = gather(columns(y@), rows@);
        let mut i: usize = 0;
        while i < h
            invariant
                i <= h,
                j < w,
                h == rows@.len(),
                r.len() >= h * w,
                all_below(rows@, y@.len()),
                listed_of_length(columns(y@), rows@, n as nat),
                c == matrix_column(r@, h as nat, w as nat, j as int),
                v == gather(columns(y@), rows@),
                start.len() == n,
                column@ == accumulate(start, c, v, i as nat),
                column@.len() == n,
            decreases h - i,
        {
            proof {
                lemma_position(i as int, j as int, h as int, w as int);
            }
            assert(columns(y@)[rows@[i as int] as int].len() == n);
            column.axpy(r[i * w + j], &y[rows[i]]);
            i = i + 1;
        }
        out.push(column);
        j = j + 1;
    }
    assert(columns(out@) =~= want);
    out
}

/// The transpose of an `n×n` matrix that is stored row after row.
pub fn transpose<T: Copy>(m: &Vec<T>, n: usize) -> (out: Vec<T>)
    requires
        m@.len() == n * n,
    ensures
        out@ == transposed(m@, n as nat),
{
    let mut out: Vec<T> = Vec::new();
    let ghost want = transposed(m@, n as nat);
    let mut i: usize = 0;
    while i < n
        invariant
            i <= n,
            m.len() == n * n,
            want == transposed(m@, n as nat),
            out@.len() == i * n,
            forall|p: int| 0 <= p < i * n ==> out@[p] == want[p],
        decreases n - i,
    {
        let mut j: usize = 0;
        assert(i * n + n == (i + 1) * n) by (nonlinear_arith);
        assert((i + 1) * n <= n * n) by (nonlinear_arith)
            requires
                i + 1 <= n,
        ;
        while j < n
            invariant
                i < n,
                j <= n,
                m.len() == n * n,
                i * n + n == (i + 1) * n,
                (i + 1) * n <= n * n,
                want == transposed(m@, n as nat),
                out@.len() == i * n + j,
                forall|p: int| 0 <= p < i * n + j ==> out@[p] == want[p],
            decreases n - j,
        {
            proof {
                lemma_position(i as int, j as int, n as int, n as int);
                lemma_position(j as int, i as int, n as int, n as int);
            }
            out.push(m[j * n + i]);
            j = j + 1;
        }
        i = i + 1;
    }
    assert(out@ =~= want);
    out
}

/// Mirrors the lower triangle of an `n×n` matrix to the upper one. What stands after the matrix
/// stays as it is.
pub fn symmetrize<T: Copy>(m: &mut Vec<T>, n: usize)
    requires
        old(m)@.len() >= n * n,
    ensures
        final(m)@ == mirrored(old(m)@, n as nat),
{
    let ghost before = m@;
    let ghost want = mirrored(before, n as nat);
    proof {
        assert forall|p: int| 0 <= p < n * n implies (#[trigger] m@[p]) == (if p / (n as int) < 0 {
            want[p]
        } else {
            before[p]
        }) by {
            lemma_row_and_column(p, n as int, n as int);
        }
    }
    let mut i: usize = 0;
    while i < n
        invariant
            i <= n,
            before.len() >= n * n,
            m.len() == before.len(),
            want == mirrored(before, n as nat),
            forall|p: int| n * n <= p < before.len() ==> (#[trigger] m@[p]) == before[p],
            forall|p: int|
                0 <= p < n * n ==> (#[trigger] m@[p]) == (if p / (n as int) < i {
                    want[p]
                } else {
                    before[p]
                }),
        decreases n - i,
    {
        let mut j: usize = i + 1;
        while j < n
            invariant
                i < n,
                i < j <= n,
                before.len() >= n * n,
                m.len() == before.len(),
                want == mirrored(before, n as nat),
                forall|p: int| n * n <= p < before.len() ==> (#[trigger] m@[p]) == before[p],
                forall|p: int|
                    0 <= p < n * n ==> (#[trigger] m@[p]) == (if p / (n as int) < i || (p / (
                    n as int) == i && p % (n as int) < j) {
                        want[p]
                    } else {
                        before[p]
                    }),
            decreases n - j,
        {
            proof {
                lemma_position(i as int, j as int, n as int, n as int);
                lemma_position(j as int, i as int, n as int, n as int);
            }
            let v = m[j * n + i];
            let ghost current = m@;
            m.set(i * n + j, v);
            proof {
                assert forall|p: int| 0 <= p < n * n implies (#[trigger] m@[p]) == (if p / (
                n as int) < i || (p / (n as int) == i && p % (n as int) < j + 1) {
                    want[p]
                } else {
                    before[p]
                }) by {
                    lemma_row_and_column(p, n as int, n as int);
                    assert(current[p] == current[p]);
                }
            }
            j = j + 1;
        }
        proof {
            assert forall|p: int| 0 <= p < n * n implies (#[trigger] m@[p]) == (if p / (n as int)
                < i + 1 {
                want[p]
            } else {
                before[p]
            }) by {
                lemma_row_and_column(p, n as int, n as int);
            }
        }
        i = i + 1;
    }
    proof {
        assert forall|p: int| 0 <= p < n * n implies (#[trigger] m@[p]) == want[p] by {
            lemma_row_and_column(p, n as int, n as int);
        }
        assert forall|p: int| n * n <= p < before.len() implies (#[trigger] m@[p]) == want[p] by {}
        assert(m@ =~= want);
    }
}

/// The residual `λ·bx − ax`. Entries of `ax` beyond those of `bx` are not read.
pub fn residual_vec<T: Field>(bx: &DenseVec<T>, ax: &DenseVec<T>, lambda: T) -> (r: DenseVec<T>)
    requires
        ax@.len() >= bx@.len(),
    ensures
        r@ == residual(bx@, ax@, lambda),
{
    let n = bx.len();
    let mut out: Vec<T> = Vec::new();
    let mut i: usize = 0;
    while i < n
        invariant
            i <= n,
            n == bx@.len(),
            ax@.len() >= n,
            out@ == residual(bx@, ax@, lambda).take(i as int),
        decreases n - i,
    {
        out.push(lambda.mul(bx.data[i]).sub(ax.data[i]));
        i = i + 1;
        assert(out@ =~= residual(bx@, ax@, lambda).take(i as int));
    }
    assert(residual(bx@, ax@, lambda).take(n as int) =~= residual(bx@, ax@, lambda));
    DenseVec { data: out }
}

/// Replaces the listed columns of `block` by those of `new`, in the order of the list.
pub fn scatter<T: Field>(block: &mut Vec<DenseVec<T>>, rows: &Vec<usize>, new: Vec<DenseVec<T>>)
    requires
        all_below(rows@, old(block)@.len()),
        new@.len() == rows@.len(),
    ensures
        columns(final(block)@) == scattered(
            columns(old(block)@),
            rows@,
            columns(new@),
            rows@.len(),
        ),
        final(block)@.len() == old(block)@.len(),
{
    let ghost before = columns(block@);
    let mut i: usize = 0;
    assert(columns(block@) =~= scattered(before, rows@, columns(new@), 0));
    while i < rows.len()
        invariant
            i <= rows@.len(),
            new@.len() == rows@.len(),
            block@.len() == before.len(),
            all_below(rows@, before.len()),
            columns(block@) == scattered(before, rows@, columns(new@), i as nat),
        decreases rows@.len() - i,
    {
        let column = new[i].duplicate();
        block.set(rows[i], column);
        i = i + 1;
        assert(columns(block@) =~= scattered(before, rows@, columns(new@), i as nat));
    }
}

} // verus!
