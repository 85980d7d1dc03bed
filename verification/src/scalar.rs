//! The number types that the solvers compute with.
//!
//! The algorithms of this crate are written once, over any type that implements
//! these traits. An implementation promises that each operation is a function of its
//! operands. Every contract of the crate is stated over those functions, operation
//! by operation, and so describes the computed value exactly, rounding included.
//! Of the laws of algebra rounding arithmetic keeps one, and that one is asked for:
//! sums and products do not depend on the order of their two operands. IEEE 754
//! arithmetic keeps it, the bits of a NaN aside.
//!
//! Each trait declares a function of the model next to the executable operation
//! that computes it. The bodies that the model functions have here are
//! placeholders: an implementation written in Verus gives its own, and nothing is
//! ever proved from a placeholder.
use vstd::prelude::*;

verus! {

/// The four operations, negation and the two constants.
pub trait Field: Copy {
    /// The model of [`Field::zero`].
    closed spec fn nought() -> Self {
        arbitrary()
    }

    /// The model of [`Field::one`].
    closed spec fn unit() -> Self {
        arbitrary()
    }

    /// The model of [`Field::add`].
    closed spec fn plus(self, rhs: Self) -> Self {
        arbitrary()
    }

    /// The model of [`Field::sub`].
    closed spec fn minus(self, rhs: Self) -> Self {
        arbitrary()
    }

    /// The model of [`Field::mul`].
    closed spec fn times(self, rhs: Self) -> Self {
        arbitrary()
    }

    /// The model of [`Field::div`].
    closed spec fn over(self, rhs: Self) -> Self {
        arbitrary()
    }

    /// The model of [`Field::neg`].
    closed spec fn negated(self) -> Self {
        arbitrary()
    }

    /// Neither a sum nor a product depends on the order of its two operands. An implementation
    /// that is not written in Verus gives this an empty body, and promises it by doing so.
    proof fn lemma_commutes(a: Self, b: Self)
        ensures
            a.plus(b) == b.plus(a),
            a.times(b) == b.times(a),
    ;

    /// The neutral element of addition.
    fn zero() -> (r: Self)
        ensures
            r == Self::nought(),
    ;

    /// The neutral element of multiplication.
    fn one() -> (r: Self)
        ensures
            r == Self::unit(),
    ;

    /// `self + rhs`.
    fn add(self, rhs: Self) -> (r: Self)
        ensures
            r == self.plus(rhs),
    ;

    /// `self - rhs`.
    fn sub(self, rhs: Self) -> (r: Self)
        ensures
            r == self.minus(rhs),
    ;

    /// `self * rhs`.
    fn mul(self, rhs: Self) -> (r: Self)
        ensures
            r == self.times(rhs),
    ;

    /// `self / rhs`.
    fn div(self, rhs: Self) -> (r: Self)
        ensures
            r == self.over(rhs),
    ;

    /// `-self`.
    fn neg(self) -> (r: Self)
        ensures
            r == self.negated(),
    ;
}

/// A real number type: comparisons, elementary functions and constants.
pub trait Real: Field {
    /// The model of [`Real::lt`].
    closed spec fn less(self, rhs: Self) -> bool {
        arbitrary()
    }

    /// The model of [`Real::le`].
    closed spec fn at_most(self, rhs: Self) -> bool {
        arbitrary()
    }

    /// The model of [`Real::abs`].
    closed spec fn magnitude(self) -> Self {
        arbitrary()
    }

    /// The model of [`Real::max`].
    closed spec fn larger(self, rhs: Self) -> Self {
        arbitrary()
    }

    /// The model of [`Real::sqrt`].
    closed spec fn root(self) -> Self {
        arbitrary()
    }

    /// The model of [`Real::hypot`].
    closed spec fn hypotenuse(self, rhs: Self) -> Self {
        arbitrary()
    }

    /// The model of [`Real::powf`].
    closed spec fn raised(self, exponent: Self) -> Self {
        arbitrary()
    }

    /// The model of [`Real::sin`].
    closed spec fn sine(self) -> Self {
        arbitrary()
    }

    /// The model of [`Real::cos`].
    closed spec fn cosine(self) -> Self {
        arbitrary()
    }

    /// The model of [`Real::pi`].
    closed spec fn half_turn() -> Self {
        arbitrary()
    }

    /// The model of [`Real::epsilon`].
    closed spec fn resolution() -> Self {
        arbitrary()
    }

    /// The model of [`Real::infinity`].
    closed spec fn unbounded() -> Self {
        arbitrary()
    }

    /// The model of [`Real::from_usize`].
    closed spec fn whole(count: nat) -> Self {
        arbitrary()
    }

    /// The model of [`Real::decimal`].
    closed spec fn scaled(digits: int, exponent: int) -> Self {
        arbitrary()
    }

    /// Whether `self < rhs`; false where the two cannot be compared.
    fn lt(self, rhs: Self) -> (r: bool)
        ensures
            r == self.less(rhs),
    ;

    /// Whether `self <= rhs`; false where the two cannot be compared.
    fn le(self, rhs: Self) -> (r: bool)
        ensures
            r == self.at_most(rhs),
    ;

    /// The absolute value.
    fn abs(self) -> (r: Self)
        ensures
            r == self.magnitude(),
    ;

    /// The larger of the two numbers.
    fn max(self, rhs: Self) -> (r: Self)
        ensures
            r == self.larger(rhs),
    ;

    /// The square root.
    fn sqrt(self) -> (r: Self)
        ensures
            r == self.root(),
    ;

    /// The length of the hypotenuse over legs `self` and `rhs`.
    fn hypot(self, rhs: Self) -> (r: Self)
        ensures
            r == self.hypotenuse(rhs),
    ;

    /// `self` to the power `exponent`.
    fn powf(self, exponent: Self) -> (r: Self)
        ensures
            r == self.raised(exponent),
    ;

    /// The sine of an angle in radians.
    fn sin(self) -> (r: Self)
        ensures
            r == self.sine(),
    ;

    /// The cosine of an angle in radians.
    fn cos(self) -> (r: Self)
        ensures
            r == self.cosine(),
    ;

    /// The circle constant.
    fn pi() -> (r: Self)
        ensures
            r == Self::half_turn(),
    ;

    /// The distance from one to the next larger number.
    fn epsilon() -> (r: Self)
        ensures
            r == Self::resolution(),
    ;

    /// Positive infinity.
    fn infinity() -> (r: Self)
        ensures
            r == Self::unbounded(),
    ;

    /// The number closest to `count`.
    fn from_usize(count: usize) -> (r: Self)
        ensures
            r == Self::whole(count as nat),
    ;

    /// The number closest to `digits` times ten to the power `exponent`.
    fn decimal(digits: i64, exponent: i32) -> (r: Self)
        ensures
            r == Self::scaled(digits as int, exponent as int),
    ;
}

/// The element type of matrices and vectors, which converts to and from the
/// double-precision type that dense decompositions and stopping tests work in.
pub trait Scalar: Real {
    /// The double-precision type.
    type Wide: Real;

    /// The model of [`Scalar::to_wide`].
    closed spec fn widened(self) -> Option<Self::Wide> {
        arbitrary()
    }

    /// The model of [`Scalar::from_wide`].
    closed spec fn narrowed(wide: Self::Wide) -> Self {
        arbitrary()
    }

    /// The value in double precision, where it has one.
    fn to_wide(self) -> (r: Option<Self::Wide>)
        ensures
            r == self.widened(),
    ;

    /// The value closest to a double-precision number.
    fn from_wide(wide: Self::Wide) -> (r: Self)
        ensures
            r == Self::narrowed(wide),
    ;
}

/// The double-precision value of `v`, or `default` where it has none.
pub open spec fn wide_or<T: Scalar>(v: T, default: T::Wide) -> T::Wide {
    match v.widened() {
        Some(w) => w,
        None => default,
    }
}

/// Converts `v` to double precision, falling back to `default`.
pub fn widen<T: Scalar>(v: T, default: T::Wide) -> (r: T::Wide)
    ensures
        r == wide_or(v, default),
{
    match v.to_wide() {
        Some(w) => w,
        None => default,
    }
}

/// Converts every entry of `v` to double precision, with zero for one that has no
/// double-precision value.
pub fn widen_all<T: Scalar>(v: &Vec<T>) -> (r: Vec<T::Wide>)
    ensures
        r@ == widened_all(v@),
{
    let mut out: Vec<T::Wide> = Vec::new();
    let mut i: usize = 0;
    while i < v.len()
        invariant
            i <= v@.len(),
            out@ == widened_all(v@).take(i as int),
        decreases v@.len() - i,
    {
        out.push(widen(v[i], T::Wide::zero()));
        i = i + 1;
        assert(out@ =~= widened_all(v@).take(i as int));
    }
    out
}

/// The entries of `v` in double precision, zero standing for those without a value.
pub open spec fn widened_all<T: Scalar>(v: Seq<T>) -> Seq<T::Wide> {
    Seq::new(v.len(), |i: int| wide_or(v[i], T::Wide::nought()))
}

/// Converts every entry of `v` from double precision.
pub fn narrow_all<T: Scalar>(v: &Vec<T::Wide>) -> (r: Vec<T>)
    ensures
        r@ == narrowed_all::<T>(v@),
{
    let mut out: Vec<T> = Vec::new();
    let mut i: usize = 0;
    while i < v.len()
        invariant
            i <= v@.len(),
            out@ == narrowed_all::<T>(v@).take(i as int),
        decreases v@.len() - i,
    {
        out.push(T::from_wide(v[i]));
        i = i + 1;
        assert(out@ =~= narrowed_all::<T>(v@).take(i as int));
    }
    out
}

/// The entries of `v` converted from double precision.
pub open spec fn narrowed_all<T: Scalar>(v: Seq<T::Wide>) -> Seq<T> {
    Seq::new(v.len(), |i: int| T::narrowed(v[i]))
}

} // verus!
