//! What the complex GMRES variants share.
use crate::complex::Cplx;
use crate::scalar::{Field, Real};
use vstd::prelude::*;

verus! {

/// The result of a complex GMRES solve. `W` is the double-precision number type.
#[derive(Clone, Debug)]
pub struct ComplexGmresResult<W> {
    /// The number of inner iterations.
    pub iters: usize,
    /// The norm of the residual `b − A x`.
    pub residual_norm: W,
    /// Whether that norm is within the tolerance.
    pub converged: bool,
    /// For each cycle, the length of the last entry of the rotated right-hand side that the update
    /// uses. The estimate of the residual norm after the cycle is that of the entry behind it.
    pub residual_history: Vec<W>,
}

/// The rotation `(c, s)` with real `c` for which `c·f + s·g` has the length of `(f, g)` and
/// `−s̄·f + c·g` vanishes.
pub open spec fn rotation<T: Real>(f: Cplx<T>, g: Cplx<T>) -> (T, Cplx<T>) {
    let (lf, lg) = (f.length(), g.length());
    if !T::nought().less(lg) {
        (T::unit(), Cplx::<T>::nought())
    } else if !T::nought().less(lf) {
        (T::nought(), g.conjugate().over(Cplx::on_axis(lg)))
    } else {
        let d = lf.hypotenuse(lg);
        (
            lf.over(d),
            f.over(Cplx::on_axis(lf)).times(g.conjugate()).over(Cplx::on_axis(d)),
        )
    }
}

/// The complex Givens rotation that eliminates `g` against `f`.
pub fn complex_givens<T: Real>(f: Cplx<T>, g: Cplx<T>) -> (r: (T, Cplx<T>))
    ensures
        r == rotation(f, g),
{
    let lf = f.norm();
    let lg = g.norm();
    if !T::zero().lt(lg) {
        (T::one(), Cplx::zero())
    } else if !T::zero().lt(lf) {
        (T::zero(), g.conj().div(Cplx::from_real(lg)))
    } else {
        let d = lf.hypot(lg);
        (lf.div(d), f.div(Cplx::from_real(lf)).mul(g.conj()).div(Cplx::from_real(d)))
    }
}

} // verus!
