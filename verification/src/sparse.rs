//! Sparse matrices: a list of entries to build one, and sorted rows to work with.
use crate::operator::LinearOperator;
use crate::scalar::Field;
use crate::vector::DenseVec;
use vstd::prelude::*;

verus! {

/// A matrix under construction: entries in the order in which they were added. Entries at the
/// same place add up.
#[derive(Clone, Debug)]
pub struct CooMatrix<T> {
    /// Number of rows.
    pub nrows: usize,
    /// Number of columns.
    pub ncols: usize,
    /// Row, column and value of every entry.
    pub entries: Vec<(usize, usize, T)>,
}

impl<T> CooMatrix<T> {
    /// Every entry lies inside the matrix.
    pub open spec fn wf(self) -> bool {
        forall|k: int|
            0 <= k < self.entries@.len() ==> (#[trigger] self.entries@[k]).0 < self.nrows
                && self.entries@[k].1 < self.ncols
    }

    /// A matrix without entries.
    pub fn new(nrows: usize, ncols: usize) -> (r: Self)
        ensures
            r.wf(),
            r.nrows == nrows,
            r.ncols == ncols,
            r.entries@ == Seq::<(usize, usize, T)>::empty(),
    {
        CooMatrix { nrows, ncols, entries: Vec::new() }
    }

    /// Adds an entry.
    pub fn push(&mut self, row: usize, col: usize, value: T)
        requires
            old(self).wf(),
            row < old(self).nrows,
            col < old(self).ncols,
        ensures
            final(self).wf(),
            final(self).nrows == old(self).nrows,
            final(self).ncols == old(self).ncols,
            final(self).entries@ == old(self).entries@.push((row, col, value)),
    {
        self.entries.push((row, col, value));
        assert forall|k: int| 0 <= k < self.entries@.len() implies (#[trigger] self.entries@[k]).0
            < self.nrows && self.entries@[k].1 < self.ncols by {
            if k < old(self).entries@.len() {
                assert(self.entries@[k] == old(self).entries@[k]);
            }
        }
    }
}

/// The value of the entry at (`row`, `col`): those among `entries` that lie there, added up
/// from the left; none where there is none.
pub open spec fn collected<T: Field>(
    entries: Seq<(usize, usize, T)>,
    row: usize,
    col: usize,
) -> Option<T>
    decreases entries.len(),
{
    if entries.len() == 0 {
        None
    } else {
        let before = collected(entries.drop_last(), row, col);
        let (r, c, v) = entries.last();
        if r == row && c == col {
            match before {
                Some(sum) => Some(sum.plus(v)),
                None => Some(v),
            }
        } else {
            before
        }
    }
}

/// The columns of a row ascend.
pub open spec fn ascending<T>(row: Seq<(usize, T)>) -> bool {
    forall|i: int, j: int| 0 <= i < j < row.len() ==> (#[trigger] row[i]).0 < (#[trigger] row[j]).0
}

/// The columns of a row lie below `width`.
pub open spec fn within<T>(row: Seq<(usize, T)>, width: nat) -> bool {
    forall|k: int| 0 <= k < row.len() ==> (#[trigger] row[k]).0 < width
}

/// The value that a row holds in column `col`.
pub open spec fn lookup<T>(row: Seq<(usize, T)>, col: usize) -> Option<T> {
    if exists|k: int| 0 <= k < row.len() && (#[trigger] row[k]).0 == col {
        Some(row[choose|k: int| 0 <= k < row.len() && (#[trigger] row[k]).0 == col].1)
    } else {
        None
    }
}

/// In a row with ascending columns an entry is found under its column.
pub proof fn lemma_lookup<T>(row: Seq<(usize, T)>, k: int)
    requires
        ascending(row),
        0 <= k < row.len(),
    ensures
        lookup(row, row[k].0) == Some(row[k].1),
{
    let col = row[k].0;
    let at = choose|i: int| 0 <= i < row.len() && (#[trigger] row[i]).0 == col;
    assert(0 <= at < row.len() && row[at].0 == col);
}

/// The product of the first `m` entries of a row with a vector, added up from the left.
pub open spec fn row_product<T: Field>(row: Seq<(usize, T)>, x: Seq<T>, m: nat) -> T
    decreases m,
{
    if m == 0 {
        T::nought()
    } else {
        row_product(row, x, (m - 1) as nat).plus(row[m - 1].1.times(x[row[m - 1].0 as int]))
    }
}

/// The product of a matrix, given by its rows, with a vector.
pub open spec fn product<T: Field>(rows: Seq<Seq<(usize, T)>>, x: Seq<T>) -> Seq<T> {
    Seq::new(rows.len(), |r: int| row_product(rows[r], x, rows[r].len()))
}

/// A sparse matrix stored row by row. Every row holds its entries in the order of their
/// columns, each column at most once.
pub struct CsrMatrix<T> {
    ncols: usize,
    rows: Vec<Vec<(usize, T)>>,
}

impl<T> View for CsrMatrix<T> {
    type V = Seq<Seq<(usize, T)>>;

    closed spec fn view(&self) -> Seq<Seq<(usize, T)>> {
        Seq::new(self.rows@.len(), |r: int| self.rows@[r]@)
    }
}

impl<T> CsrMatrix<T> {
    /// The number of columns.
    pub closed spec fn width(self) -> nat {
        self.ncols as nat
    }

    /// Every row has ascending columns inside the matrix.
    pub open spec fn canonical(self) -> bool {
        forall|r: int|
            0 <= r < self@.len() ==> ascending(#[trigger] self@[r]) && within(self@[r], self.width())
    }

    #[verifier::type_invariant]
    closed spec fn sound(self) -> bool {
        self.canonical()
    }

    /// The entry at (`row`, `col`).
    pub open spec fn stored(self, row: int, col: usize) -> Option<T> {
        lookup(self@[row], col)
    }
}

/// Adds an entry to a row with ascending columns.
fn add_entry<T: Field>(row: &mut Vec<(usize, T)>, col: usize, value: T)
    requires
        ascending(old(row)@),
    ensures
        ascending(final(row)@),
        forall|width: nat| #[trigger]
            within(old(row)@, width) && col < width ==> within(final(row)@, width),
        forall|c: usize| c != col ==> #[trigger] lookup(final(row)@, c) == lookup(old(row)@, c),
        lookup(final(row)@, col) == (match lookup(old(row)@, col) {
            Some(sum) => Some(sum.plus(value)),
            None => Some(value),
        }),
{
    let ghost before = row@;
    let mut k: usize = 0;
    while k < row.len() && row[k].0 < col
        invariant
            k <= row@.len(),
            row@ == before,
            forall|i: int| 0 <= i < k ==> (#[trigger] before[i]).0 < col,
        decreases row@.len() - k,
    {
        k = k + 1;
    }
    if k < row.len() && row[k].0 == col {
        let sum = row[k].1.add(value);
        row.set(k, (col, sum));
        proof {
            lemma_lookup(before, k as int);
            lemma_lookup(row@, k as int);
            assert forall|c: usize| c != col implies #[trigger] lookup(row@, c) == lookup(
                before,
                c,
            ) by {
                if exists|i: int| 0 <= i < before.len() && (#[trigger] before[i]).0 == c {
                    let i = choose|i: int| 0 <= i < before.len() && (#[trigger] before[i]).0 == c;
                    lemma_lookup(before, i);
                    lemma_lookup(row@, i);
                } else {
                    assert forall|i: int| 0 <= i < row@.len() implies (#[trigger] row@[i]).0
                        != c by {
                        assert(before[i].0 != c);
                    }
                }
            }
        }
    } else {
        row.insert(k, (col, value));
        proof {
            let after = row@;
            assert(after == before.insert(k as int, (col, value)));
            assert forall|i: int, j: int| 0 <= i < j < after.len() implies (#[trigger] after[i]).0
                < (#[trigger] after[j]).0 by {
                if j < k {
                    assert(after[i] == before[i] && after[j] == before[j]);
                } else if j == k {
                    assert(after[i] == before[i]);
                } else if i < k {
                    assert(after[i] == before[i] && after[j] == before[j - 1]);
                    assert(k <= j - 1 && before[i].0 < before[j - 1].0);
                } else if i == k {
                    assert(after[j] == before[j - 1]);
                    assert(before[k as int].0 > col);
                    if k < j - 1 {
                        assert(before[k as int].0 < before[j - 1].0);
                    }
                } else {
                    assert(after[i] == before[i - 1] && after[j] == before[j - 1]);
                }
            }
            lemma_lookup(after, k as int);
            assert forall|i: int| 0 <= i < before.len() implies (#[trigger] before[i]).0 != col by {
                if k < i {
                    assert(before[k as int].0 < before[i].0);
                }
            }
            assert forall|c: usize| c != col implies #[trigger] lookup(after, c) == lookup(
                before,
                c,
            ) by {
                if exists|i: int| 0 <= i < before.len() && (#[trigger] before[i]).0 == c {
                    let i = choose|i: int| 0 <= i < before.len() && (#[trigger] before[i]).0 == c;
                    lemma_lookup(before, i);
                    let moved = if i < k {
                        i
                    } else {
                        i + 1
                    };
                    assert(after[moved] == before[i]);
                    lemma_lookup(after, moved);
                } else {
                    assert forall|i: int| 0 <= i < after.len() implies (#[trigger] after[i]).0
                        != c by {
                        if i < k {
                            assert(after[i] == before[i]);
                        } else if i > k {
                            assert(after[i] == before[i - 1]);
                        }
                    }
                }
            }
            assert forall|width: nat| #[trigger]
                within(before, width) && col < width implies within(after, width) by {
                assert forall|i: int| 0 <= i < after.len() implies (#[trigger] after[i]).0
                    < width by {
                    if i < k {
                        assert(after[i] == before[i]);
                    } else if i > k {
                        assert(after[i] == before[i - 1]);
                    }
                }
            }
        }
    }
}

impl<T: Field> CsrMatrix<T> {
    /// The matrix with the given entries; entries at the same place are added up.
    pub fn from_coo(coo: &CooMatrix<T>) -> (m: Self)
        requires
            coo.wf(),
        ensures
            m@.len() == coo.nrows,
            m.width() == coo.ncols,
            m.canonical(),
            forall|r: usize, c: usize|
                r < coo.nrows ==> #[trigger] m.stored(r as int, c) == collected(
                    coo.entries@,
                    r,
                    c,
                ),
    {
        let mut rows: Vec<Vec<(usize, T)>> = Vec::new();
        let mut r: usize = 0;
        while r < coo.nrows
            invariant
                r <= coo.nrows,
                rows@.len() == r,
                forall|i: int| 0 <= i < r ==> (#[trigger] rows@[i])@.len() == 0,
            decreases coo.nrows - r,
        {
            rows.push(Vec::new());
            r = r + 1;
        }
        let mut k: usize = 0;
        assert(coo.entries@.take(0) =~= Seq::empty());
        while k < coo.entries.len()
            invariant
                k <= coo.entries@.len(),
                coo.wf(),
                rows@.len() == coo.nrows,
                forall|i: int|
                    0 <= i < rows@.len() ==> ascending((#[trigger] rows@[i])@) && within(
                        rows@[i]@,
                        coo.ncols as nat,
                    ),
                forall|i: usize, c: usize|
                    i < rows@.len() ==> #[trigger] lookup(rows@[i as int]@, c) == collected(
                        coo.entries@.take(k as int),
                        i,
                        c,
                    ),
            decreases coo.entries@.len() - k,
        {
            let ghost before = rows@;
            let (row, col, value) = coo.entries[k];
            assert(coo.entries@[k as int].0 < coo.nrows);
            add_entry(&mut rows[row], col, value);
            proof {
                let so_far = coo.entries@.take(k + 1);
                assert(so_far.drop_last() =~= coo.entries@.take(k as int));
                assert(within(before[row as int]@, coo.ncols as nat));
                assert forall|i: usize, c: usize| i < rows@.len() implies #[trigger] lookup(
                    rows@[i as int]@,
                    c,
                ) == collected(so_far, i, c) by {
                    if i != row {
                        assert(rows@[i as int] == before[i as int]);
                        assert(lookup(before[i as int]@, c) == collected(
                            coo.entries@.take(k as int),
                            i,
                            c,
                        ));
                    } else {
                        assert(lookup(before[row as int]@, c) == collected(
                            coo.entries@.take(k as int),
                            i,
                            c,
                        ));
                    }
                }
                assert forall|i: int| 0 <= i < rows@.len() implies ascending((#[trigger] rows@[i])@)
                    && within(rows@[i]@, coo.ncols as nat) by {
                    assert(ascending(before[i]@));
                }
            }
            k = k + 1;
        }
        assert(coo.entries@.take(k as int) =~= coo.entries@);
        let ghost listed = Seq::new(rows@.len(), |i: int| rows@[i]@);
        assert forall|i: int| 0 <= i < listed.len() implies ascending(#[trigger] listed[i])
            && within(listed[i], coo.ncols as nat) by {
            assert(ascending(rows@[i]@));
        }
        let m = CsrMatrix { ncols: coo.ncols, rows };
        assert(m@ =~= listed);
        assert forall|i: usize, c: usize| i < coo.nrows implies #[trigger] m.stored(i as int, c)
            == collected(coo.entries@, i, c) by {
            assert(lookup(m.rows@[i as int]@, c) == collected(coo.entries@, i, c));
        }
        m
    }

    /// The number of rows.
    pub fn nrows(&self) -> (r: usize)
        ensures
            r == self@.len(),
            self.canonical(),
    {
        proof {
            use_type_invariant(self);
        }
        self.rows.len()
    }

    /// The number of columns.
    pub fn ncols(&self) -> (r: usize)
        ensures
            r == self.width(),
            self.canonical(),
    {
        proof {
            use_type_invariant(self);
        }
        self.ncols
    }

    /// The entry at (`row`, `col`), where there is one.
    pub fn get(&self, row: usize, col: usize) -> (r: Option<T>)
        requires
            row < self@.len(),
        ensures
            r == self.stored(row as int, col),
    {
        proof {
            use_type_invariant(self);
        }
        let entries = &self.rows[row];
        assert(self@[row as int] == entries@);
        let mut k: usize = 0;
        while k < entries.len()
            invariant
                k <= entries@.len(),
                ascending(entries@),
                self@[row as int] == entries@,
                forall|i: int| 0 <= i < k ==> (#[trigger] entries@[i]).0 != col,
            decreases entries@.len() - k,
        {
            if entries[k].0 == col {
                proof {
                    lemma_lookup(entries@, k as int);
                }
                return Some(entries[k].1);
            }
            k = k + 1;
        }
        None
    }

    /// The diagonal: one entry for every row, zero where none is stored.
    pub fn diag(&self) -> (d: Vec<T>)
        ensures
            d@ == diagonal(*self),
    {
        let n = self.nrows();
        let mut d: Vec<T> = Vec::new();
        let mut i: usize = 0;
        while i < n
            invariant
                i <= n,
                n == self@.len(),
                d@ == diagonal(*self).take(i as int),
            decreases n - i,
        {
            let entry = match self.get(i, i) {
                Some(v) => v,
                None => T::zero(),
            };
            d.push(entry);
            i = i + 1;
            assert(d@ =~= diagonal(*self).take(i as int));
        }
        assert(d@ =~= diagonal(*self));
        d
    }

    /// The product of the matrix with a vector.
    pub fn spmv(&self, x: &[T]) -> (y: Vec<T>)
        requires
            x@.len() == self.width(),
        ensures
            y@ == product(self@, x@),
    {
        let n = self.nrows();
        let mut y: Vec<T> = Vec::new();
        let mut i: usize = 0;
        while i < n
            invariant
                i <= n,
                n == self@.len(),
                x@.len() == self.width(),
                self.canonical(),
                y@ == product(self@, x@).take(i as int),
            decreases n - i,
        {
            let entries = &self.rows[i];
            assert(self@[i as int] == entries@);
            let mut sum = T::zero();
            let mut k: usize = 0;
            while k < entries.len()
                invariant
                    k <= entries@.len(),
                    within(entries@, x@.len()),
                    sum == row_product(entries@, x@, k as nat),
                decreases entries@.len() - k,
            {
                let (col, value) = entries[k];
                assert(entries@[k as int].0 < x@.len());
                sum = sum.add(value.mul(x[col]));
                k = k + 1;
            }
            y.push(sum);
            i = i + 1;
            assert(y@ =~= product(self@, x@).take(i as int));
        }
        assert(y@ =~= product(self@, x@));
        y
    }
}

/// The diagonal of a matrix, with zero for an entry that is not stored.
pub open spec fn diagonal<T: Field>(m: CsrMatrix<T>) -> Seq<T> {
    Seq::new(
        m@.len(),
        |i: int|
            match m.stored(i, i as usize) {
                Some(v) => v,
                None => T::nought(),
            },
    )
}

impl<T: Field> LinearOperator<T> for CsrMatrix<T> {
    open spec fn rows(&self) -> nat {
        self@.len()
    }

    open spec fn cols(&self) -> nat {
        self.width()
    }

    open spec fn image(&self, x: Seq<T>) -> Seq<T> {
        product(self@, x)
    }

    fn nrows(&self) -> (r: usize) {
        CsrMatrix::nrows(self)
    }

    fn ncols(&self) -> (r: usize) {
        CsrMatrix::ncols(self)
    }

    fn apply(&self, x: &DenseVec<T>, y: &mut DenseVec<T>) {
        let product = self.spmv(x.data.as_slice());
        *y = DenseVec { data: product };
    }
}

} // verus!
