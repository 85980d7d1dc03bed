//! Dense vectors and the operations on them.
use crate::complex::Cplx;
use crate::scalar::{Field, Real};
use vstd::prelude::*;

verus! {

/// A dense vector.
#[derive(Clone, Debug)]
pub struct DenseVec<E> {
    /// The entries.
    pub data: Vec<E>,
}

impl<E> View for DenseVec<E> {
    type V = Seq<E>;

    open spec fn view(&self) -> Seq<E> {
        self.data@
    }
}

/// The zero vector of length `n`.
pub open spec fn zero_vector<E: Field>(n: nat) -> Seq<E> {
    Seq::new(n, |i: int| E::nought())
}

/// `y + c·x`.
pub open spec fn plus_multiple<E: Field>(y: Seq<E>, c: E, x: Seq<E>) -> Seq<E> {
    Seq::new(y.len(), |i: int| y[i].plus(c.times(x[i])))
}

/// `y` with every entry multiplied by `c`.
pub open spec fn multiplied<E: Field>(y: Seq<E>, c: E) -> Seq<E> {
    Seq::new(y.len(), |i: int| y[i].times(c))
}

/// The sum of the first `n` products `x[i]·y[i]`, added up from the left.
pub open spec fn dot_sum<E: Field>(x: Seq<E>, y: Seq<E>, n: nat) -> E
    decreases n,
{
    if n == 0 {
        E::nought()
    } else {
        dot_sum(x, y, (n - 1) as nat).plus(x[n - 1].times(y[n - 1]))
    }
}

/// The dot product of two vectors of the same length.
pub open spec fn dot_product<E: Field>(x: Seq<E>, y: Seq<E>) -> E {
    dot_sum(x, y, x.len())
}

/// The Euclidean norm of a real vector.
pub open spec fn euclidean<T: Real>(x: Seq<T>) -> T {
    dot_product(x, x).root()
}

/// The sum of the first `n` products of a conjugated entry of `x` with the entry of
/// `y` beside it, added up from the left.
pub open spec fn inner_sum<T: Real>(x: Seq<Cplx<T>>, y: Seq<Cplx<T>>, n: nat) -> Cplx<T>
    decreases n,
{
    if n == 0 {
        Cplx::<T>::nought()
    } else {
        inner_sum(x, y, (n - 1) as nat).plus(x[n - 1].conjugate().times(y[n - 1]))
    }
}

/// The inner product of two complex vectors, conjugate-linear in the first.
pub open spec fn inner_product<T: Real>(x: Seq<Cplx<T>>, y: Seq<Cplx<T>>) -> Cplx<T> {
    inner_sum(x, y, x.len())
}

/// The sum of the first `n` squared absolute values, added up from the left.
pub open spec fn square_sum<T: Real>(x: Seq<Cplx<T>>, n: nat) -> T
    decreases n,
{
    if n == 0 {
        T::nought()
    } else {
        square_sum(x, (n - 1) as nat).plus(x[n - 1].square_norm())
    }
}

/// The Euclidean norm of a complex vector.
pub open spec fn complex_euclidean<T: Real>(x: Seq<Cplx<T>>) -> T {
    square_sum(x, x.len()).root()
}

impl<E: Field> DenseVec<E> {
    /// The zero vector of length `n`.
    pub fn zeros(n: usize) -> (r: Self)
        ensures
            r@ == zero_vector::<E>(n as nat),
    {
        DenseVec { data: filled(n, E::zero()) }
    }

    /// A vector with the given entries.
    pub fn from_vec(data: Vec<E>) -> (r: Self)
        ensures
            r@ == data@,
    {
        DenseVec { data }
    }

    /// The number of entries.
    pub fn len(&self) -> (r: usize)
        ensures
            r == self@.len(),
    {
        self.data.len()
    }

    /// The entries.
    pub fn as_slice(&self) -> (r: &[E])
        ensures
            r@ == self@,
    {
        self.data.as_slice()
    }

    /// A copy of the vector.
    pub fn duplicate(&self) -> (r: Self)
        ensures
            r@ == self@,
    {
        DenseVec { data: copied(self.data.as_slice()) }
    }

    /// Sets every entry to `value`.
    pub fn fill(&mut self, value: E)
        ensures
            final(self)@ == Seq::new(old(self)@.len(), |i: int| value),
    {
        self.data = filled(self.data.len(), value);
        assert(self@ =~= Seq::new(old(self)@.len(), |i: int| value));
    }

    /// Takes over the entries of `src`.
    pub fn copy_from(&mut self, src: &Self)
        requires
            src@.len() == old(self)@.len(),
        ensures
            final(self)@ == src@,
    {
        self.data = copied(src.data.as_slice());
    }

    /// Adds `c·x`.
    pub fn axpy(&mut self, c: E, x: &Self)
        requires
            x@.len() == old(self)@.len(),
        ensures
            final(self)@ == plus_multiple(old(self)@, c, x@),
    {
        let ghost before = self@;
        let n = self.data.len();
        let mut i: usize = 0;
        while i < n
            invariant
                i <= n,
                n == before.len(),
                self@.len() == n,
                x@.len() == n,
                forall|m: int| 0 <= m < i ==> self@[m] == plus_multiple(before, c, x@)[m],
                forall|m: int| i <= m < n ==> self@[m] == before[m],
            decreases n - i,
        {
            let sum = self.data[i].add(c.mul(x.data[i]));
            self.data.set(i, sum);
            i = i + 1;
        }
        assert(self@ =~= plus_multiple(before, c, x@));
    }

    /// Multiplies every entry by `c`.
    pub fn scale(&mut self, c: E)
        ensures
            final(self)@ == multiplied(old(self)@, c),
    {
        let ghost before = self@;
        let n = self.data.len();
        let mut i: usize = 0;
        while i < n
            invariant
                i <= n,
                n == before.len(),
                self@.len() == n,
                forall|m: int| 0 <= m < i ==> self@[m] == multiplied(before, c)[m],
                forall|m: int| i <= m < n ==> self@[m] == before[m],
            decreases n - i,
        {
            let product = self.data[i].mul(c);
            self.data.set(i, product);
            i = i + 1;
        }
        assert(self@ =~= multiplied(before, c));
    }
}

impl<T: Real> DenseVec<T> {
    /// The Euclidean norm.
    pub fn norm2(&self) -> (r: T)
        ensures
            r == euclidean(self@),
    {
        dot(self.data.as_slice(), self.data.as_slice()).sqrt()
    }
}

/// The dot product of two vectors of the same length.
pub fn dot<T: Field>(x: &[T], y: &[T]) -> (r: T)
    requires
        x@.len() == y@.len(),
    ensures
        r == dot_product(x@, y@),
{
    let mut sum = T::zero();
    let mut i: usize = 0;
    while i < x.len()
        invariant
            i <= x@.len(),
            x@.len() == y@.len(),
            sum == dot_sum(x@, y@, i as nat),
        decreases x@.len() - i,
    {
        sum = sum.add(x[i].mul(y[i]));
        i = i + 1;
    }
    sum
}

/// The inner product of two complex vectors of the same length, conjugate-linear in
/// the first.
pub fn inner<T: Real>(x: &[Cplx<T>], y: &[Cplx<T>]) -> (r: Cplx<T>)
    requires
        x@.len() == y@.len(),
    ensures
        r == inner_product(x@, y@),
{
    let mut sum = Cplx::<T>::zero();
    let mut i: usize = 0;
    while i < x.len()
        invariant
            i <= x@.len(),
            x@.len() == y@.len(),
            sum == inner_sum(x@, y@, i as nat),
        decreases x@.len() - i,
    {
        sum = sum.add(x[i].conj().mul(y[i]));
        i = i + 1;
    }
    sum
}

/// The Euclidean norm of a complex vector.
pub fn complex_norm<T: Real>(x: &[Cplx<T>]) -> (r: T)
    ensures
        r == complex_euclidean(x@),
{
    let mut sum = T::zero();
    let mut i: usize = 0;
    while i < x.len()
        invariant
            i <= x@.len(),
            sum == square_sum(x@, i as nat),
        decreases x@.len() - i,
    {
        sum = sum.add(x[i].norm_sqr());
        i = i + 1;
    }
    sum.sqrt()
}

/// A vector of `n` copies of `value`.
pub fn filled<E: Copy>(n: usize, value: E) -> (r: Vec<E>)
    ensures
        r@ == Seq::new(n as nat, |i: int| value),
{
    let mut out: Vec<E> = Vec::new();
    let mut i: usize = 0;
    while i < n
        invariant
            i <= n,
            out@ == Seq::new(i as nat, |m: int| value),
        decreases n - i,
    {
        out.push(value);
        i = i + 1;
        assert(out@ =~= Seq::new(i as nat, |m: int| value));
    }
    out
}

/// A copy of `src`.
pub fn copied<E: Copy>(src: &[E]) -> (r: Vec<E>)
    ensures
        r@ == src@,
{
    let mut out: Vec<E> = Vec::new();
    let mut i: usize = 0;
    while i < src.len()
        invariant
            i <= src@.len(),
            out@ == src@.take(i as int),
        decreases src@.len() - i,
    {
        out.push(src[i]);
        i = i + 1;
        assert(out@ =~= src@.take(i as int));
    }
    assert(src@.take(src@.len() as int) =~= src@);
    out
}

/// The columns of a block of vectors, each by its entries.
pub open spec fn columns<E>(block: Seq<DenseVec<E>>) -> Seq<Seq<E>> {
    Seq::new(block.len(), |j: int| block[j]@)
}

} // verus!
