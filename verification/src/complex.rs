//! Complex numbers over any real number type.
use crate::scalar::{Field, Real};
use vstd::prelude::*;

verus! {

/// The complex number `re + i·im`.
#[derive(Clone, Copy, Debug)]
pub struct Cplx<T> {
    /// The real part.
    pub re: T,
    /// The imaginary part.
    pub im: T,
}

impl<T: Real> Cplx<T> {
    /// The complex number with the given parts.
    pub fn new(re: T, im: T) -> (r: Self)
        ensures
            r == (Cplx { re, im }),
    {
        Cplx { re, im }
    }

    /// The real number `re`, as a complex one.
    pub open spec fn on_axis(re: T) -> Self {
        Cplx { re, im: T::nought() }
    }

    /// The real number `re`, as a complex one.
    pub fn from_real(re: T) -> (r: Self)
        ensures
            r == Self::on_axis(re),
    {
        Cplx { re, im: T::zero() }
    }

    /// The complex conjugate.
    pub open spec fn conjugate(self) -> Self {
        Cplx { re: self.re, im: self.im.negated() }
    }

    /// The complex conjugate.
    pub fn conj(self) -> (r: Self)
        ensures
            r == self.conjugate(),
    {
        Cplx { re: self.re, im: self.im.neg() }
    }

    /// The square of the absolute value.
    pub open spec fn square_norm(self) -> T {
        self.re.times(self.re).plus(self.im.times(self.im))
    }

    /// The square of the absolute value.
    pub fn norm_sqr(self) -> (r: T)
        ensures
            r == self.square_norm(),
    {
        self.re.mul(self.re).add(self.im.mul(self.im))
    }

    /// The absolute value.
    pub open spec fn length(self) -> T {
        self.re.hypotenuse(self.im)
    }

    /// The absolute value.
    pub fn norm(self) -> (r: T)
        ensures
            r == self.length(),
    {
        self.re.hypot(self.im)
    }

    /// The product with a real number.
    pub open spec fn stretched(self, factor: T) -> Self {
        Cplx { re: self.re.times(factor), im: self.im.times(factor) }
    }

    /// The product with a real number.
    pub fn scale(self, factor: T) -> (r: Self)
        ensures
            r == self.stretched(factor),
    {
        Cplx { re: self.re.mul(factor), im: self.im.mul(factor) }
    }
}

impl<T: Real> Field for Cplx<T> {
    open spec fn nought() -> Self {
        Cplx { re: T::nought(), im: T::nought() }
    }

    open spec fn unit() -> Self {
        Cplx { re: T::unit(), im: T::nought() }
    }

    open spec fn plus(self, rhs: Self) -> Self {
        Cplx { re: self.re.plus(rhs.re), im: self.im.plus(rhs.im) }
    }

    open spec fn minus(self, rhs: Self) -> Self {
        Cplx { re: self.re.minus(rhs.re), im: self.im.minus(rhs.im) }
    }

    open spec fn times(self, rhs: Self) -> Self {
        Cplx {
            re: self.re.times(rhs.re).minus(self.im.times(rhs.im)),
            im: self.re.times(rhs.im).plus(self.im.times(rhs.re)),
        }
    }

    open spec fn over(self, rhs: Self) -> Self {
        let square = rhs.square_norm();
        Cplx {
            re: self.re.times(rhs.re).plus(self.im.times(rhs.im)).over(square),
            im: self.im.times(rhs.re).minus(self.re.times(rhs.im)).over(square),
        }
    }

    open spec fn negated(self) -> Self {
        Cplx { re: self.re.negated(), im: self.im.negated() }
    }

    proof fn lemma_commutes(a: Self, b: Self) {
        T::lemma_commutes(a.re, b.re);
        T::lemma_commutes(a.im, b.im);
        T::lemma_commutes(a.re, b.im);
        T::lemma_commutes(a.im, b.re);
        T::lemma_commutes(a.re.times(b.im), a.im.times(b.re));
    }

    fn zero() -> (r: Self) {
        Cplx { re: T::zero(), im: T::zero() }
    }

    fn one() -> (r: Self) {
        Cplx { re: T::one(), im: T::zero() }
    }

    fn add(self, rhs: Self) -> (r: Self) {
        Cplx { re: self.re.add(rhs.re), im: self.im.add(rhs.im) }
    }

    fn sub(self, rhs: Self) -> (r: Self) {
        Cplx { re: self.re.sub(rhs.re), im: self.im.sub(rhs.im) }
    }

    fn mul(self, rhs: Self) -> (r: Self) {
        Cplx {
            re: self.re.mul(rhs.re).sub(self.im.mul(rhs.im)),
            im: self.re.mul(rhs.im).add(self.im.mul(rhs.re)),
        }
    }

    fn div(self, rhs: Self) -> (r: Self) {
        let square = rhs.norm_sqr();
        Cplx {
            re: self.re.mul(rhs.re).add(self.im.mul(rhs.im)).div(square),
            im: self.im.mul(rhs.re).sub(self.re.mul(rhs.im)).div(square),
        }
    }

    fn neg(self) -> (r: Self) {
        Cplx { re: self.re.neg(), im: self.im.neg() }
    }
}

} // verus!
