//! LGMRES, restarted GMRES with an augmented Krylov basis, for complex linear systems.
//!
//! At each restart the basis is augmented with approximate-error vectors saved from earlier
//! cycles, so that information persists across restarts (Baker, Jessup & Manteuffel 2005):
//!
//! ```text
//! aug = []  outer: r = b−Ax, v[0]=r/β
//!   Phase A: for a_i in aug: z=M⁻¹·a_i, w=A·z, GS(w)→Arnoldi
//!   Phase B: for j=0..m: z=M⁻¹·v[j], w=A·z, GS(w)→Arnoldi
//!   y=H⁻¹g; dx=Σy[j]·z[j]; x+=dx; aug.push(dx/‖dx‖)
//! ```
use super::complex_gmres::{complex_givens, rotation, ComplexGmresResult};
use crate::complex::Cplx;
use crate::eigen::block::{accumulate, all_of_length};
use crate::error::SolverError;
use crate::operator::{LinearOperator, Preconditioner};
use crate::scalar::{wide_or, widen, Field, Real, Scalar};
use crate::vector::{
    columns, complex_euclidean, complex_norm, copied, filled, inner, inner_product, multiplied,
    plus_multiple, zero_vector, DenseVec,
};
use vstd::prelude::*;

verus! {

/// Reusable scratch memory for [`ComplexLgmres`].
pub struct ComplexLgmresWorkspace<T: Scalar> {
    /// The restart length.
    pub restart: usize,
    /// The number of augmentation vectors.
    pub aug_dim: usize,
    /// The residual.
    pub r: DenseVec<Cplx<T>>,
    /// The Krylov basis.
    pub v: Vec<DenseVec<Cplx<T>>>,
    /// A preconditioned direction.
    pub z: DenseVec<Cplx<T>>,
    /// The image of a direction.
    pub w: DenseVec<Cplx<T>>,
    /// The columns of the Hessenberg matrix.
    pub h: Vec<Vec<Cplx<T>>>,
    /// The cosines of the rotations.
    pub cs: Vec<T>,
    /// The sines of the rotations.
    pub sn: Vec<Cplx<T>>,
    /// The rotated right-hand side.
    pub g: Vec<Cplx<T>>,
}

/// The columns of a matrix that is stored column by column.
pub open spec fn matrix_columns<E>(h: Seq<Vec<E>>) -> Seq<Seq<E>> {
    Seq::new(h.len(), |j: int| h[j]@)
}

/// The contents of a workspace that outlive a step.
#[verifier::ext_equal]
pub struct Basis<T> {
    pub v: Seq<Seq<Cplx<T>>>,
    pub h: Seq<Seq<Cplx<T>>>,
    pub cs: Seq<T>,
    pub sn: Seq<Cplx<T>>,
    pub g: Seq<Cplx<T>>,
}

impl<T: Scalar> Basis<T> {
    /// An all-zero basis for vectors of length `n` with room for `size` directions.
    pub open spec fn blank(n: nat, size: nat) -> Self {
        Basis {
            v: Seq::new(size + 1, |i: int| zero_vector::<Cplx<T>>(n)),
            h: Seq::new(size, |i: int| zero_vector::<Cplx<T>>(size + 1)),
            cs: Seq::new(size, |i: int| T::nought()),
            sn: zero_vector::<Cplx<T>>(size),
            g: zero_vector::<Cplx<T>>(size + 1),
        }
    }

    /// The basis is for vectors of length `n` and has room for `size` directions.
    pub open spec fn shaped(self, n: nat, size: nat) -> bool {
        &&& self.v.len() == size + 1
        &&& all_of_length(self.v, n)
        &&& self.h.len() == size
        &&& all_of_length(self.h, size + 1)
        &&& self.cs.len() == size
        &&& self.sn.len() == size
        &&& self.g.len() == size + 1
    }
}

/// The restart length that is used for a requested one.
pub open spec fn restart_of(restart: nat) -> nat {
    if restart >= 1 {
        restart
    } else {
        1
    }
}

/// The number of augmentation vectors that is used for a requested one.
pub open spec fn aug_dim_of(aug_dim: nat) -> nat {
    if aug_dim <= 20 {
        aug_dim
    } else {
        20
    }
}

fn clamp_restart(restart: usize) -> (r: usize)
    ensures
        r == restart_of(restart as nat),
{
    if restart >= 1 {
        restart
    } else {
        1
    }
}

fn clamp_aug_dim(aug_dim: usize) -> (r: usize)
    ensures
        r == aug_dim_of(aug_dim as nat),
{
    if aug_dim <= 20 {
        aug_dim
    } else {
        20
    }
}

impl<T: Scalar> ComplexLgmresWorkspace<T> {
    /// The contents that outlive a step.
    pub open spec fn basis(self) -> Basis<T> {
        Basis {
            v: columns(self.v@),
            h: matrix_columns(self.h@),
            cs: self.cs@,
            sn: self.sn@,
            g: self.g@,
        }
    }

    /// The workspace is all zero and fits vectors of length `n`, the restart length and the
    /// number of augmentation vectors.
    pub open spec fn is_blank(self, n: nat, restart: nat, aug_dim: nat) -> bool {
        let size = restart_of(restart) + aug_dim_of(aug_dim);
        &&& self.restart == restart_of(restart)
        &&& self.aug_dim == aug_dim_of(aug_dim)
        &&& self.r@ == zero_vector::<Cplx<T>>(n)
        &&& self.z@ == zero_vector::<Cplx<T>>(n)
        &&& self.w@ == zero_vector::<Cplx<T>>(n)
        &&& self.basis() == Basis::<T>::blank(n, size)
    }

    /// Scratch memory for vectors of length `n`.
    pub fn new(n: usize, restart: usize, aug_dim: usize) -> (ws: Self)
        requires
            restart + 21 <= usize::MAX,
        ensures
            ws.is_blank(n as nat, restart as nat, aug_dim as nat),
    {
        let m = clamp_restart(restart);
        let k = clamp_aug_dim(aug_dim);
        let size = m + k;
        let zc = Cplx::<T>::zero();
        let mut v: Vec<DenseVec<Cplx<T>>> = Vec::new();
        let mut i: usize = 0;
        while i < size + 1
            invariant
                i <= size + 1,
                size + 1 <= usize::MAX,
                v@.len() == i,
                forall|c: int| 0 <= c < i ==> (#[trigger] v@[c])@ == zero_vector::<Cplx<T>>(n as nat),
            decreases size + 1 - i,
        {
            v.push(DenseVec::zeros(n));
            i = i + 1;
        }
        let mut h: Vec<Vec<Cplx<T>>> = Vec::new();
        let mut i: usize = 0;
        while i < size
            invariant
                i <= size,
                size + 1 <= usize::MAX,
                zc == Cplx::<T>::nought(),
                h@.len() == i,
                forall|c: int|
                    0 <= c < i ==> (#[trigger] h@[c])@ == zero_vector::<Cplx<T>>((size + 1) as nat),
            decreases size - i,
        {
            let column = filled(size + 1, zc);
            assert(column@ =~= zero_vector::<Cplx<T>>((size + 1) as nat));
            h.push(column);
            i = i + 1;
        }
        let ws = ComplexLgmresWorkspace {
            restart: m,
            aug_dim: k,
            r: DenseVec::zeros(n),
            v,
            z: DenseVec::zeros(n),
            w: DenseVec::zeros(n),
            h,
            cs: filled(size, T::zero()),
            sn: filled(size, zc),
            g: filled(size + 1, zc),
        };
        proof {
            let want = Basis::<T>::blank(n as nat, size as nat);
            assert(ws.basis().v =~= want.v);
            assert(ws.basis().h =~= want.h);
            assert(ws.basis().cs =~= want.cs);
            assert(ws.basis().sn =~= want.sn);
            assert(ws.basis().g =~= want.g);
        }
        ws
    }

    /// Makes the workspace fit: it is kept as it is where it does already, and replaced by a
    /// blank one where it does not.
    pub fn ensure(&mut self, n: usize, restart: usize, aug_dim: usize)
        requires
            restart + 21 <= usize::MAX,
        ensures
            if old(self).restart == restart_of(restart as nat) && old(self).aug_dim == aug_dim_of(
                aug_dim as nat,
            ) && old(self).r@.len() == n {
                *final(self) == *old(self)
            } else {
                final(self).is_blank(n as nat, restart as nat, aug_dim as nat)
            },
    {
        let m = clamp_restart(restart);
        let k = clamp_aug_dim(aug_dim);
        if self.restart != m || self.aug_dim != k || self.r.len() != n {
            *self = Self::new(n, m, k);
        }
    }
}

/// Complex LGMRES(m, k) solver with restart and augmentation.
pub struct ComplexLgmres<T: Scalar> {
    /// The restart length `m`.
    pub restart: usize,
    /// The number `k` of augmentation vectors.
    pub aug_dim: usize,
    /// The element type.
    pub element: core::marker::PhantomData<T>,
}

impl<T: Scalar> ComplexLgmres<T> {
    /// The restart length and the number of augmentation vectors are in range.
    pub open spec fn wf(self) -> bool {
        &&& 1 <= self.restart
        &&& self.restart + 21 <= usize::MAX
        &&& self.aug_dim <= 20
    }

    /// A solver that restarts after `restart` steps, at least one, and keeps `aug_dim`
    /// augmentation vectors, at most twenty.
    pub fn new(restart: usize, aug_dim: usize) -> (s: Self)
        ensures
            s.restart == restart_of(restart as nat),
            s.aug_dim == aug_dim_of(aug_dim as nat),
    {
        ComplexLgmres {
            restart: clamp_restart(restart),
            aug_dim: clamp_aug_dim(aug_dim),
            element: core::marker::PhantomData,
        }
    }
}


/// A linear system `A x = b` with what decides when it is solved.
#[verifier::reject_recursive_types(T)]
pub struct System<T: Scalar> {
    /// `A·x`.
    pub image: spec_fn(Seq<Cplx<T>>) -> Seq<Cplx<T>>,
    /// `M⁻¹·x`.
    pub correction: spec_fn(Seq<Cplx<T>>) -> Seq<Cplx<T>>,
    /// The right-hand side.
    pub b: Seq<Cplx<T>>,
    /// The tolerance on the norm of the residual.
    pub tol: T,
    /// The limit on the inner iterations.
    pub max_iter: nat,
    /// The restart length.
    pub restart: nat,
    /// The number of augmentation vectors.
    pub aug_dim: nat,
}

/// `M⁻¹·x`, or `x` without a preconditioner.
pub open spec fn preconditioned<T: Scalar>(
    precond: Option<&dyn Preconditioner<Cplx<T>>>,
    x: Seq<Cplx<T>>,
) -> Seq<Cplx<T>> {
    match precond {
        Some(m) => m.correction(x),
        None => x,
    }
}

/// `w` without its components along the first `i` vectors of `v`, removed one after the
/// other.
pub open spec fn orthogonalised<T: Scalar>(
    v: Seq<Seq<Cplx<T>>>,
    w: Seq<Cplx<T>>,
    i: nat,
) -> Seq<Cplx<T>>
    decreases i,
{
    if i == 0 {
        w
    } else {
        let rest = orthogonalised(v, w, (i - 1) as nat);
        plus_multiple(rest, inner_product(v[i - 1], rest).negated(), v[i - 1])
    }
}

/// The component of `w` along vector `i` of `v`, once those along the vectors before it have
/// been removed.
pub open spec fn component<T: Scalar>(v: Seq<Seq<Cplx<T>>>, w: Seq<Cplx<T>>, i: int) -> Cplx<T> {
    inner_product(v[i], orthogonalised(v, w, i as nat))
}

/// A column of the Hessenberg matrix with the components along the first `i` vectors entered.
pub open spec fn with_components<T: Scalar>(
    column: Seq<Cplx<T>>,
    v: Seq<Seq<Cplx<T>>>,
    w: Seq<Cplx<T>>,
    i: nat,
) -> Seq<Cplx<T>> {
    Seq::new(
        column.len(),
        |c: int|
            if c < i {
                component(v, w, c)
            } else {
                column[c]
            },
    )
}

/// A column of the Hessenberg matrix after the first `i` rotations.
pub open spec fn rotated<T: Scalar>(
    column: Seq<Cplx<T>>,
    cs: Seq<T>,
    sn: Seq<Cplx<T>>,
    i: nat,
) -> Seq<Cplx<T>>
    decreases i,
{
    if i == 0 {
        column
    } else {
        let h = rotated(column, cs, sn, (i - 1) as nat);
        let (c, s) = (Cplx::on_axis(cs[i - 1]), sn[i - 1]);
        let (upper, lower) = (h[i - 1], h[i as int]);
        h.update(i as int, s.conjugate().negated().times(upper).plus(c.times(lower))).update(
            i - 1,
            c.times(upper).plus(s.times(lower)),
        )
    }
}

/// Entry `i` of the right-hand side of the triangular system, less the products with the
/// unknowns after `i` and before `l`.
pub open spec fn reduced<T: Scalar>(
    h: Seq<Seq<Cplx<T>>>,
    g: Seq<Cplx<T>>,
    y: Seq<Cplx<T>>,
    i: int,
    l: int,
) -> Cplx<T>
    decreases l - i,
{
    if l <= i + 1 {
        g[i]
    } else {
        reduced(h, g, y, i, l - 1).minus(h[l - 1][i].times(y[l - 1]))
    }
}

/// The solution of the upper triangular system of size `size`, from unknown `i` on, with zero
/// before. An unknown with a negligible diagonal entry is zero.
pub open spec fn triangular_solution<T: Scalar>(
    h: Seq<Seq<Cplx<T>>>,
    g: Seq<Cplx<T>>,
    size: nat,
    i: nat,
) -> Seq<Cplx<T>>
    decreases size - i,
{
    if i >= size {
        zero_vector::<Cplx<T>>(size)
    } else {
        let y = triangular_solution(h, g, size, i + 1);
        y.update(
            i as int,
            if T::resolution().less(h[i as int][i as int].length()) {
                reduced(h, g, y, i as int, size as int).over(h[i as int][i as int])
            } else {
                Cplx::<T>::nought()
            },
        )
    }
}

/// The state of a cycle between two steps.
#[verifier::ext_equal]
pub struct Sweep<T> {
    /// The basis.
    pub basis: Basis<T>,
    /// The inner iterations so far.
    pub iters: nat,
    /// The number of directions in the basis.
    pub filled: nat,
    /// Whether the estimated residual is within the tolerance.
    pub done: bool,
}

/// The state of a solve between two cycles.
#[verifier::ext_equal]
pub struct Outer<T: Scalar> {
    /// The approximate solution.
    pub x: Seq<Cplx<T>>,
    /// The augmentation vectors, oldest first.
    pub aug: Seq<Seq<Cplx<T>>>,
    /// The lengths recorded so far, one for each cycle.
    pub history: Seq<T::Wide>,
    /// The inner iterations so far.
    pub iters: nat,
    /// The basis.
    pub basis: Basis<T>,
}

/// How a solve ends.
pub enum Ending<T: Scalar> {
    /// At the beginning of a cycle: the residual is within the tolerance, or the iteration
    /// limit allows for no step at all.
    Checked {
        /// The state at that point.
        outer: Outer<T>,
        /// The norm of the residual.
        beta: T,
    },
    /// At the end of a cycle, with the iteration limit reached.
    Exhausted {
        /// The state at that point.
        outer: Outer<T>,
    },
}

impl<T: Scalar> System<T> {
    /// The residual `b − A x`.
    pub open spec fn residual(self, x: Seq<Cplx<T>>) -> Seq<Cplx<T>> {
        let ax = (self.image)(x);
        Seq::new(self.b.len(), |i: int| self.b[i].minus(ax[i]))
    }

    /// The image of a preconditioned direction.
    pub open spec fn arnoldi_image(self, direction: Seq<Cplx<T>>) -> Seq<Cplx<T>> {
        (self.image)((self.correction)(direction))
    }

    /// The part of the image of `direction` that lies outside the first `j + 1` basis vectors.
    pub open spec fn fresh_part(
        self,
        basis: Basis<T>,
        direction: Seq<Cplx<T>>,
        j: nat,
    ) -> Seq<Cplx<T>> {
        orthogonalised(basis.v, self.arnoldi_image(direction), j + 1)
    }

    /// The norm of that part.
    pub open spec fn fresh_norm(
        self,
        basis: Basis<T>,
        direction: Seq<Cplx<T>>,
        j: nat,
    ) -> T {
        complex_euclidean(self.fresh_part(basis, direction, j))
    }

    /// The basis with `direction` as direction `j`: column `j` of the Hessenberg matrix is
    /// computed and rotated, a new rotation eliminates the entry below its diagonal, and the
    /// right-hand side is rotated along.
    pub open spec fn extended(
        self,
        basis: Basis<T>,
        direction: Seq<Cplx<T>>,
        j: nat,
    ) -> Basis<T> {
        let ji = j as int;
        let w = self.arnoldi_image(direction);
        let next = Cplx::on_axis(self.fresh_norm(basis, direction, j));
        let column = rotated(
            with_components(basis.h[ji], basis.v, w, j + 1),
            basis.cs,
            basis.sn,
            j,
        );
        let (c, s) = rotation(column[ji], next);
        Basis {
            v: basis.v,
            h: basis.h.update(
                ji,
                column.update(ji, Cplx::on_axis(c).times(column[ji]).plus(s.times(next))),
            ),
            cs: basis.cs.update(ji, c),
            sn: basis.sn.update(ji, s),
            g: basis.g.update(ji, Cplx::on_axis(c).times(basis.g[ji])).update(
                ji + 1,
                s.conjugate().negated().times(basis.g[ji]),
            ),
        }
    }

    /// The steps `j` to `end` of a cycle of `total` steps: along the augmentation vectors
    /// `aug`, or along the basis vectors themselves. They end early where the iteration limit
    /// is reached, where the estimated residual is within the tolerance, and where the basis
    /// cannot grow.
    pub open spec fn swept(
        self,
        sweep: Sweep<T>,
        aug: Option<Seq<Seq<Cplx<T>>>>,
        j: nat,
        end: nat,
        total: nat,
    ) -> Sweep<T>
        decreases end - j,
    {
        if j >= end || sweep.iters >= self.max_iter {
            sweep
        } else {
            let direction = match aug {
                Some(a) => a[j as int],
                None => sweep.basis.v[j as int],
            };
            let basis = self.extended(sweep.basis, direction, j);
            let next = self.fresh_norm(sweep.basis, direction, j);
            let iters = sweep.iters + 1;
            if basis.g[j as int + 1].length().at_most(self.tol) {
                Sweep { basis, iters, filled: j + 1, done: true }
            } else if T::resolution().less(next) && j + 1 < total {
                let w = self.fresh_part(sweep.basis, direction, j);
                let unit = multiplied(w, Cplx::on_axis(T::unit().over(next)));
                self.swept(
                    Sweep {
                        basis: Basis { v: basis.v.update(j as int + 1, unit), ..basis },
                        iters,
                        filled: j + 1,
                        done: false,
                    },
                    aug,
                    j + 1,
                    end,
                    total,
                )
            } else {
                Sweep { basis, iters, filled: j + 1, done: false }
            }
        }
    }

    /// The number of augmentation vectors that a cycle uses.
    pub open spec fn augmented(self, outer: Outer<T>) -> nat {
        if outer.aug.len() <= self.aug_dim {
            outer.aug.len()
        } else {
            self.aug_dim
        }
    }

    /// The number of steps of a cycle.
    pub open spec fn steps(self, outer: Outer<T>) -> nat {
        self.restart + self.augmented(outer)
    }

    /// The basis at the beginning of a cycle: its first vector is the normalised residual.
    pub open spec fn restarted(self, outer: Outer<T>) -> Basis<T> {
        let r = self.residual(outer.x);
        let beta = complex_euclidean(r);
        let size = outer.basis.cs.len();
        Basis {
            v: outer.basis.v.update(0, multiplied(r, Cplx::on_axis(T::unit().over(beta)))),
            h: outer.basis.h,
            cs: Seq::new(size, |i: int| T::nought()),
            sn: zero_vector::<Cplx<T>>(size),
            g: zero_vector::<Cplx<T>>(size + 1).update(0, Cplx::on_axis(beta)),
        }
    }

    /// The steps along the augmentation vectors.
    pub open spec fn phase_a(self, outer: Outer<T>) -> Sweep<T> {
        self.swept(
            Sweep { basis: self.restarted(outer), iters: outer.iters, filled: 0, done: false },
            Some(outer.aug),
            0,
            self.augmented(outer),
            self.steps(outer),
        )
    }

    /// All the steps of a cycle.
    pub open spec fn both_phases(self, outer: Outer<T>) -> Sweep<T> {
        let a = self.phase_a(outer);
        if a.done {
            a
        } else {
            self.swept(a, None, self.augmented(outer), self.steps(outer), self.steps(outer))
        }
    }

    /// The preconditioned direction of step `j`: an augmentation vector, as long as there are any,
    /// and the basis vector after that.
    pub open spec fn preconditioned_direction(
        self,
        aug: Seq<Seq<Cplx<T>>>,
        basis: Basis<T>,
        j: int,
    ) -> Seq<Cplx<T>> {
        (self.correction)(
            if j < aug.len() {
                aug[j]
            } else {
                basis.v[j]
            },
        )
    }

    /// The update that the first `size` steps of a cycle give.
    pub open spec fn increment(
        self,
        aug: Seq<Seq<Cplx<T>>>,
        basis: Basis<T>,
        size: nat,
    ) -> Seq<Cplx<T>> {
        accumulate(
            zero_vector::<Cplx<T>>(self.b.len()),
            triangular_solution(basis.h, basis.g, size, 0),
            Seq::new(size, |j: int| self.preconditioned_direction(aug, basis, j)),
            size,
        )
    }

    /// The augmentation vectors with the direction of `dx` added; the oldest leaves where
    /// there is no room.
    pub open spec fn remembered(
        self,
        aug: Seq<Seq<Cplx<T>>>,
        dx: Seq<Cplx<T>>,
    ) -> Seq<Seq<Cplx<T>>> {
        let norm = complex_euclidean(dx);
        if T::resolution().less(norm) && self.aug_dim > 0 {
            let kept = if aug.len() >= self.aug_dim {
                aug.remove(0)
            } else {
                aug
            };
            kept.push(multiplied(dx, Cplx::on_axis(T::unit().over(norm))))
        } else {
            aug
        }
    }

    /// The state after a cycle.
    pub open spec fn cycled(self, outer: Outer<T>) -> Outer<T> {
        let sweep = self.both_phases(outer);
        if sweep.filled == 0 {
            Outer { iters: sweep.iters, basis: sweep.basis, ..outer }
        } else {
            let dx = self.increment(outer.aug, sweep.basis, sweep.filled);
            Outer {
                x: Seq::new(outer.x.len(), |i: int| outer.x[i].plus(dx[i])),
                aug: self.remembered(outer.aug, dx),
                history: outer.history.push(
                    wide_or(sweep.basis.g[sweep.filled - 1].length(), T::Wide::nought()),
                ),
                iters: sweep.iters,
                basis: sweep.basis,
            }
        }
    }

    /// Cycles until the residual is within the tolerance or the iteration limit is reached.
    pub open spec fn solved(self, outer: Outer<T>) -> Ending<T>
        decreases self.max_iter - outer.iters,
        when self.restart >= 1
    {
        let beta = complex_euclidean(self.residual(outer.x));
        if beta.at_most(self.tol) || outer.iters >= self.max_iter {
            Ending::Checked { outer, beta }
        } else {
            let next = self.cycled(outer);
            if next.iters >= self.max_iter {
                Ending::Exhausted { outer: next }
            } else {
                proof {
                    self.lemma_progress(outer);
                }
                self.solved(next)
            }
        }
    }

    /// A step counts.
    proof fn lemma_swept_counts(
        self,
        sweep: Sweep<T>,
        aug: Option<Seq<Seq<Cplx<T>>>>,
        j: nat,
        end: nat,
        total: nat,
    )
        ensures
            self.swept(sweep, aug, j, end, total).iters >= sweep.iters,
            j < end && sweep.iters < self.max_iter ==> self.swept(
                sweep,
                aug,
                j,
                end,
                total,
            ).iters > sweep.iters,
            sweep.iters <= self.max_iter ==> self.swept(sweep, aug, j, end, total).iters
                <= self.max_iter,
        decreases end - j,
    {
        if j < end && sweep.iters < self.max_iter {
            let direction = match aug {
                Some(a) => a[j as int],
                None => sweep.basis.v[j as int],
            };
            let basis = self.extended(sweep.basis, direction, j);
            let next = self.fresh_norm(sweep.basis, direction, j);
            let w = self.fresh_part(sweep.basis, direction, j);
            let unit = multiplied(w, Cplx::on_axis(T::unit().over(next)));
            self.lemma_swept_counts(
                Sweep {
                    basis: Basis { v: basis.v.update(j as int + 1, unit), ..basis },
                    iters: sweep.iters + 1,
                    filled: j + 1,
                    done: false,
                },
                aug,
                j + 1,
                end,
                total,
            );
        }
    }

    /// Every cycle makes progress towards the iteration limit.
    pub proof fn lemma_progress(self, outer: Outer<T>)
        requires
            self.restart >= 1,
            outer.iters < self.max_iter,
        ensures
            outer.iters < self.cycled(outer).iters <= self.max_iter,
    {
        let start = Sweep {
            basis: self.restarted(outer),
            iters: outer.iters,
            filled: 0,
            done: false,
        };
        let (count, total) = (self.augmented(outer), self.steps(outer));
        self.lemma_swept_counts(start, Some(outer.aug), 0, count, total);
        self.lemma_swept_counts(self.phase_a(outer), None, count, total, total);
    }

    /// How a solve that is within the iteration limit ends. Where it ends at the beginning of a
    /// cycle, what is reported is the norm of the residual of the `x` that is returned, which is
    /// within the tolerance unless no iteration was allowed. Where it does not, the limit was used
    /// up.
    pub proof fn lemma_ending(self, outer: Outer<T>)
        requires
            self.restart >= 1,
            outer.iters < self.max_iter || outer.iters == 0,
        ensures
            match self.solved(outer) {
                Ending::Checked { outer: last, beta } => {
                    &&& beta == complex_euclidean(self.residual(last.x))
                    &&& outer.iters <= last.iters <= self.max_iter
                    &&& beta.at_most(self.tol) || self.max_iter == 0
                },
                Ending::Exhausted { outer: last } => last.iters == self.max_iter,
            },
        decreases self.max_iter - outer.iters,
    {
        let beta = complex_euclidean(self.residual(outer.x));
        if !(beta.at_most(self.tol) || outer.iters >= self.max_iter) {
            self.lemma_progress(outer);
            let next = self.cycled(outer);
            if next.iters < self.max_iter {
                self.lemma_ending(next);
            }
        }
    }

    /// A starting point whose residual is within the tolerance is returned as it is, after no
    /// iteration.
    pub proof fn lemma_nothing_to_do(self, outer: Outer<T>)
        requires
            self.restart >= 1,
            complex_euclidean(self.residual(outer.x)).at_most(self.tol),
        ensures
            self.solved(outer) == (Ending::Checked {
                outer,
                beta: complex_euclidean(self.residual(outer.x)),
            }),
    {
    }

    /// No more augmentation vectors are kept than were asked for, whatever the number of cycles.
    pub proof fn lemma_augmentation_bounded(self, outer: Outer<T>)
        requires
            outer.aug.len() <= self.aug_dim,
        ensures
            self.cycled(outer).aug.len() <= self.aug_dim,
    {
    }
}


/// Writes `M⁻¹·src`, or `src` without a preconditioner, to `dst`.
fn apply_pc<T: Scalar>(
    precond: Option<&dyn Preconditioner<Cplx<T>>>,
    src: &DenseVec<Cplx<T>>,
    dst: &mut DenseVec<Cplx<T>>,
)
    requires
        src@.len() == old(dst)@.len(),
    ensures
        final(dst)@ == preconditioned(precond, src@),
        final(dst)@.len() == old(dst)@.len(),
{
    match precond {
        Some(m) => m.apply_precond(src, dst),
        None => dst.copy_from(src),
    }
}

/// Applies the first `j` rotations to column `j` of the Hessenberg matrix.
pub fn apply_givens_seq<T: Scalar>(
    h: &mut Vec<Vec<Cplx<T>>>,
    cs: &Vec<T>,
    sn: &Vec<Cplx<T>>,
    j: usize,
)
    requires
        j < old(h)@.len(),
        j < old(h)@[j as int]@.len(),
        j <= cs@.len(),
        j <= sn@.len(),
    ensures
        matrix_columns(final(h)@) == matrix_columns(old(h)@).update(
            j as int,
            rotated(old(h)@[j as int]@, cs@, sn@, j as nat),
        ),
        rotated(old(h)@[j as int]@, cs@, sn@, j as nat).len() == old(h)@[j as int]@.len(),
{
    let ghost before = matrix_columns(h@);
    let ghost column = h@[j as int]@;
    let mut hj = copied(h[j].as_slice());
    let mut i: usize = 0;
    while i < j
        invariant
            i <= j,
            j < column.len(),
            j <= cs@.len(),
            j <= sn@.len(),
            hj@.len() == column.len(),
            hj@ == rotated(column, cs@, sn@, i as nat),
        decreases j - i,
    {
        let c = Cplx::from_real(cs[i]);
        let s = sn[i];
        let upper = hj[i];
        let lower = hj[i + 1];
        hj.set(i + 1, s.conj().neg().mul(upper).add(c.mul(lower)));
        hj.set(i, c.mul(upper).add(s.mul(lower)));
        i = i + 1;
    }
    h.set(j, hj);
    assert(matrix_columns(h@) =~= before.update(
        j as int,
        rotated(column, cs@, sn@, j as nat),
    ));
}

/// Solves the upper triangular system of the first `size` columns of `h`.
pub fn back_substitute<T: Scalar>(h: &Vec<Vec<Cplx<T>>>, g: &Vec<Cplx<T>>, size: usize) -> (y: Vec<
    Cplx<T>,
>)
    requires
        size <= h@.len(),
        size <= g@.len(),
        forall|j: int| 0 <= j < size ==> (#[trigger] h@[j])@.len() >= size,
    ensures
        y@ == triangular_solution(matrix_columns(h@), g@, size as nat, 0),
        y@.len() == size,
{
    let ghost hm = matrix_columns(h@);
    let mut y = filled(size, Cplx::<T>::zero());
    assert(y@ =~= zero_vector::<Cplx<T>>(size as nat));
    let mut i: usize = size;
    while i > 0
        invariant
            i <= size,
            size <= h@.len(),
            size <= g@.len(),
            forall|j: int| 0 <= j < size ==> (#[trigger] h@[j])@.len() >= size,
            hm == matrix_columns(h@),
            y@.len() == size,
            y@ == triangular_solution(hm, g@, size as nat, i as nat),
        decreases i,
    {
        i = i - 1;
        let mut s = g[i];
        let mut l: usize = i + 1;
        while l < size
            invariant
                i < l <= size,
                size <= h@.len(),
                size <= g@.len(),
                forall|j: int| 0 <= j < size ==> (#[trigger] h@[j])@.len() >= size,
                hm == matrix_columns(h@),
                y@.len() == size,
                s == reduced(hm, g@, y@, i as int, l as int),
            decreases size - l,
        {
            s = s.sub(h[l][i].mul(y[l]));
            l = l + 1;
        }
        let d = h[i][i];
        let value = if T::epsilon().lt(d.norm()) {
            s.div(d)
        } else {
            Cplx::zero()
        };
        y.set(i, value);
    }
    y
}


impl<T: Scalar> ComplexLgmresWorkspace<T> {
    /// The scratch vectors have length `n`, and the basis has room for `size` directions.
    pub open spec fn fits(self, n: nat, size: nat) -> bool {
        &&& self.r@.len() == n
        &&& self.z@.len() == n
        &&& self.w@.len() == n
        &&& self.basis().shaped(n, size)
    }
}

impl<T: Scalar> ComplexLgmres<T> {
    /// Takes `direction` as direction `j` of the basis, and returns the norm of the part of its
    /// image that lies outside the basis; that part is left in `ws.w`.
    fn extend<Op: LinearOperator<Cplx<T>> + ?Sized>(
        op: &Op,
        precond: Option<&dyn Preconditioner<Cplx<T>>>,
        ws: &mut ComplexLgmresWorkspace<T>,
        direction: &DenseVec<Cplx<T>>,
        j: usize,
        Ghost(system): Ghost<System<T>>,
        Ghost(size): Ghost<nat>,
    ) -> (next: T)
        requires
            op.rows() == system.b.len(),
            op.cols() == system.b.len(),
            system.image == (|x: Seq<Cplx<T>>| op.image(x)),
            system.correction == (|x: Seq<Cplx<T>>| preconditioned(precond, x)),
            old(ws).fits(system.b.len(), size),
            direction@.len() == system.b.len(),
            j < size < usize::MAX,
        ensures
            final(ws).fits(system.b.len(), size),
            final(ws).basis() == system.extended(old(ws).basis(), direction@, j as nat),
            final(ws).w@ == system.fresh_part(old(ws).basis(), direction@, j as nat),
            next == system.fresh_norm(old(ws).basis(), direction@, j as nat),
    {
        let ghost n = system.b.len();
        let ghost start = ws.basis();
        apply_pc(precond, direction, &mut ws.z);
        op.apply(&ws.z, &mut ws.w);
        let ghost w0 = ws.w@;
        assert(w0 == system.arnoldi_image(direction@));
        assert(start.h[j as int].len() == size + 1);
        let mut column = copied(ws.h[j].as_slice());
        let ghost column0 = column@;
        let mut i: usize = 0;
        while i < j + 1
            invariant
                i <= j + 1,
                j < size < usize::MAX,
                ws.fits(n, size),
                ws.basis() == start,
                ws.w@ == orthogonalised(start.v, w0, i as nat),
                column0.len() == size + 1,
                column@ == with_components(column0, start.v, w0, i as nat),
            decreases j + 1 - i,
        {
            assert(start.v[i as int].len() == n);
            assert(start.v[i as int] == ws.v@[i as int]@);
            let h_ij = inner(ws.v[i].as_slice(), ws.w.as_slice());
            column.set(i, h_ij);
            let ghost current = *ws;
            ws.w.axpy(h_ij.neg(), &ws.v[i]);
            assert(h_ij == component(start.v, w0, i as int));
            i = i + 1;
            assert(column@ =~= with_components(column0, start.v, w0, i as nat));
            assert(ws.basis() =~= start);
        }
        let next = complex_norm(ws.w.as_slice());
        let next_c = Cplx::from_real(next);
        ws.h.set(j, column);
        let ghost filled_h = start.h.update(j as int, column@);
        assert(matrix_columns(ws.h@) =~= filled_h);
        apply_givens_seq(&mut ws.h, &ws.cs, &ws.sn, j);
        let ghost rot = rotated(column@, start.cs, start.sn, j as nat);
        assert(matrix_columns(ws.h@) =~= start.h.update(j as int, rot));
        let mut hj = copied(ws.h[j].as_slice());
        assert(hj@ == matrix_columns(ws.h@)[j as int]);
        let diagonal = hj[j];
        let (c, s) = complex_givens(diagonal, next_c);
        hj.set(j, Cplx::from_real(c).mul(diagonal).add(s.mul(next_c)));
        let ghost hj_final = hj@;
        let ghost rotated_h = ws.h@;
        ws.h.set(j, hj);
        ws.cs.set(j, c);
        ws.sn.set(j, s);
        let gj = ws.g[j];
        ws.g.set(j, Cplx::from_real(c).mul(gj));
        ws.g.set(j + 1, s.conj().neg().mul(gj));
        proof {
            let want = system.extended(start, direction@, j as nat);
            assert(column0 == start.h[j as int]);
            assert(rot == rotated(
                with_components(start.h[j as int], start.v, w0, (j + 1) as nat),
                start.cs,
                start.sn,
                j as nat,
            ));
            assert(diagonal == rot[j as int]);
            assert(hj_final == want.h[j as int]);
            assert(matrix_columns(ws.h@) =~= matrix_columns(rotated_h).update(j as int, hj_final));
            assert(matrix_columns(ws.h@) =~= want.h);
            assert(ws.basis() =~= want);
            assert forall|c: int| 0 <= c < want.h.len() implies (#[trigger] want.h[c]).len() == size
                + 1 by {
                if c != j {
                    assert(want.h[c] == start.h[c]);
                }
            }
        }
        next
    }
}


/// The model of optional augmentation vectors.
pub open spec fn directions<T: Scalar>(aug: Option<&Vec<DenseVec<Cplx<T>>>>) -> Option<
    Seq<Seq<Cplx<T>>>,
> {
    match aug {
        Some(a) => Some(columns(a@)),
        None => None,
    }
}

impl<T: Scalar> ComplexLgmres<T> {
    /// Takes the steps `first` to `end` of a cycle of `total` steps; returns the inner
    /// iterations, the number of directions and whether the estimated residual is within the
    /// tolerance.
    fn sweep<Op: LinearOperator<Cplx<T>> + ?Sized>(
        op: &Op,
        precond: Option<&dyn Preconditioner<Cplx<T>>>,
        ws: &mut ComplexLgmresWorkspace<T>,
        aug: Option<&Vec<DenseVec<Cplx<T>>>>,
        first: usize,
        end: usize,
        total: usize,
        counters: (usize, usize),
        tol: T,
        max_iter: usize,
        Ghost(system): Ghost<System<T>>,
        Ghost(size): Ghost<nat>,
    ) -> (r: (usize, usize, bool))
        requires
            op.rows() == system.b.len(),
            op.cols() == system.b.len(),
            system.image == (|x: Seq<Cplx<T>>| op.image(x)),
            system.correction == (|x: Seq<Cplx<T>>| preconditioned(precond, x)),
            tol == system.tol,
            max_iter == system.max_iter,
            first <= end <= total <= size < usize::MAX,
            old(ws).fits(system.b.len(), size),
            counters.1 <= total,
            aug matches Some(a) ==> end <= a@.len() && all_of_length(
                columns(a@),
                system.b.len(),
            ),
        ensures
            final(ws).fits(system.b.len(), size),
            system.swept(
                Sweep {
                    basis: old(ws).basis(),
                    iters: counters.0 as nat,
                    filled: counters.1 as nat,
                    done: false,
                },
                directions(aug),
                first as nat,
                end as nat,
                total as nat,
            ) == (Sweep {
                basis: final(ws).basis(),
                iters: r.0 as nat,
                filled: r.1 as nat,
                done: r.2,
            }),
            r.1 <= total,
    {
        let ghost whole = system.swept(
            Sweep {
                basis: ws.basis(),
                iters: counters.0 as nat,
                filled: counters.1 as nat,
                done: false,
            },
            directions(aug),
            first as nat,
            end as nat,
            total as nat,
        );
        let mut iters = counters.0;
        let mut count = counters.1;
        let mut j: usize = first;
        while j < end && iters < max_iter
            invariant
                op.rows() == system.b.len(),
                op.cols() == system.b.len(),
                system.image == (|x: Seq<Cplx<T>>| op.image(x)),
                system.correction == (|x: Seq<Cplx<T>>| preconditioned(precond, x)),
                tol == system.tol,
                max_iter == system.max_iter,
                first <= j <= end <= total <= size < usize::MAX,
                ws.fits(system.b.len(), size),
                count <= total,
                aug matches Some(a) ==> end <= a@.len() && all_of_length(
                    columns(a@),
                    system.b.len(),
                ),
                whole == system.swept(
                    Sweep {
                        basis: old(ws).basis(),
                        iters: counters.0 as nat,
                        filled: counters.1 as nat,
                        done: false,
                    },
                    directions(aug),
                    first as nat,
                    end as nat,
                    total as nat,
                ),
                whole == system.swept(
                    Sweep {
                        basis: ws.basis(),
                        iters: iters as nat,
                        filled: count as nat,
                        done: false,
                    },
                    directions(aug),
                    j as nat,
                    end as nat,
                    total as nat,
                ),
            decreases end - j,
        {
            let ghost before = ws.basis();
            let direction = match aug {
                Some(a) => {
                    assert(columns(a@)[j as int].len() == system.b.len());
                    a[j].duplicate()
                },
                None => {
                    assert(ws.basis().v[j as int].len() == system.b.len());
                    ws.v[j].duplicate()
                },
            };
            let next = Self::extend(
                op,
                precond,
                ws,
                &direction,
                j,
                Ghost(system),
                Ghost(size),
            );
            iters = iters + 1;
            count = j + 1;
            if ws.g[j + 1].norm().le(tol) {
                return (iters, count, true);
            }
            if T::epsilon().lt(next) && j + 1 < total {
                let mut unit = ws.w.duplicate();
                unit.scale(Cplx::from_real(T::one().div(next)));
                let ghost basis = ws.basis();
                let ghost added = unit@;
                ws.v.set(j + 1, unit);
                proof {
                    let grown = Basis { v: basis.v.update(j as int + 1, added), ..basis };
                    assert(columns(ws.v@) =~= grown.v);
                    assert(ws.basis() =~= grown);
                    assert forall|c: int| 0 <= c < grown.v.len() implies (
                    #[trigger] grown.v[c]).len() == system.b.len() by {
                        if c != j + 1 {
                            assert(grown.v[c] == basis.v[c]);
                        }
                    }
                }
                j = j + 1;
            } else {
                return (iters, count, false);
            }
        }
        (iters, count, false)
    }

    /// Updates `x` with what the first `count` steps of the cycle give, remembers the
    /// direction of the update, and records the length of the last entry of the rotated right-hand
    /// side that the update uses.
    fn do_update(
        precond: Option<&dyn Preconditioner<Cplx<T>>>,
        ws: &mut ComplexLgmresWorkspace<T>,
        x: &mut DenseVec<Cplx<T>>,
        aug_vecs: &mut Vec<DenseVec<Cplx<T>>>,
        k: usize,
        count: usize,
        residual_history: &mut Vec<T::Wide>,
        Ghost(system): Ghost<System<T>>,
        Ghost(size): Ghost<nat>,
    )
        requires
            system.correction == (|x: Seq<Cplx<T>>| preconditioned(precond, x)),
            old(ws).fits(system.b.len(), size),
            1 <= count <= size,
            old(x)@.len() == system.b.len(),
            k == system.aug_dim,
            old(aug_vecs)@.len() <= k,
            all_of_length(columns(old(aug_vecs)@), system.b.len()),
        ensures
            final(ws).fits(system.b.len(), size),
            final(ws).basis() == old(ws).basis(),
            final(x)@ == ({
                let dx = system.increment(
                    columns(old(aug_vecs)@),
                    old(ws).basis(),
                    count as nat,
                );
                Seq::new(old(x)@.len(), |i: int| old(x)@[i].plus(dx[i]))
            }),
            columns(final(aug_vecs)@) == system.remembered(
                columns(old(aug_vecs)@),
                system.increment(columns(old(aug_vecs)@), old(ws).basis(), count as nat),
            ),
            final(residual_history)@ == old(residual_history)@.push(
                wide_or(old(ws).basis().g[count - 1].length(), T::Wide::nought()),
            ),
            final(aug_vecs)@.len() <= k,
            all_of_length(columns(final(aug_vecs)@), system.b.len()),
    {
        let ghost n = system.b.len();
        let ghost basis = ws.basis();
        let len = x.len();
        proof {
            assert forall|j: int| 0 <= j < count implies (#[trigger] ws.h@[j])@.len() >= count by {
                assert(basis.h[j].len() == size + 1);
            }
        }
        let y = back_substitute(&ws.h, &ws.g, count);
        let ghost aug = columns(aug_vecs@);
        let ghost parts = Seq::new(
            count as nat,
            |j: int| system.preconditioned_direction(aug, basis, j),
        );
        let ghost start = zero_vector::<Cplx<T>>(n);
        let mut dx = DenseVec::<Cplx<T>>::zeros(len);
        let mut j: usize = 0;
        while j < count
            invariant
                j <= count <= size,
                len == n,
                n == system.b.len(),
                system.correction == (|x: Seq<Cplx<T>>| preconditioned(precond, x)),
                ws.fits(n, size),
                ws.basis() == basis,
                y@.len() == count,
                aug == columns(aug_vecs@),
                all_of_length(aug, n),
                parts == Seq::new(
                    count as nat,
                    |j: int| system.preconditioned_direction(aug, basis, j),
                ),
                dx@.len() == n,
                dx@ == accumulate(start, y@, parts, j as nat),
            decreases count - j,
        {
            if j < aug_vecs.len() {
                assert(aug[j as int].len() == n);
                apply_pc(precond, &aug_vecs[j], &mut ws.z);
            } else {
                assert(basis.v[j as int].len() == n);
                assert(basis.v[j as int] == ws.v@[j as int]@);
                apply_pc(precond, &ws.v[j], &mut ws.z);
            }
            dx.axpy(y[j], &ws.z);
            j = j + 1;
            assert(ws.basis() =~= basis);
        }
        let ghost increment = dx@;
        assert(increment == system.increment(aug, basis, count as nat));
        let ghost x0 = x@;
        let ghost want_x = Seq::new(x0.len(), |i: int| x0[i].plus(increment[i]));
        let mut i: usize = 0;
        while i < len
            invariant
                i <= len,
                len == x0.len(),
                x@.len() == len,
                dx@ == increment,
                increment.len() == len,
                want_x == Seq::new(x0.len(), |i: int| x0[i].plus(increment[i])),
                forall|c: int| 0 <= c < i ==> x@[c] == want_x[c],
                forall|c: int| i <= c < len ==> x@[c] == x0[c],
            decreases len - i,
        {
            let sum = x.data[i].add(dx.data[i]);
            x.data.set(i, sum);
            i = i + 1;
        }
        assert(x@ =~= want_x);
        residual_history.push(widen(ws.g[count - 1].norm(), T::Wide::zero()));
        let norm = complex_norm(dx.as_slice());
        let ghost aug0 = columns(aug_vecs@);
        if T::epsilon().lt(norm) && k > 0 {
            dx.scale(Cplx::from_real(T::one().div(norm)));
            if aug_vecs.len() >= k {
                aug_vecs.remove(0);
                assert(columns(aug_vecs@) =~= aug0.remove(0));
                assert forall|c: int| 0 <= c < aug_vecs@.len() implies (
                #[trigger] columns(aug_vecs@)[c]).len() == n by {
                    assert(columns(aug_vecs@)[c] == aug0[c + 1]);
                }
            }
            let ghost kept = columns(aug_vecs@);
            let ghost unit = dx@;
            aug_vecs.push(dx);
            assert(columns(aug_vecs@) =~= kept.push(unit));
        }
    }
}


/// The tolerance on the norm of the residual: relative to that of the right-hand side, but at
/// least `atol`.
pub open spec fn tolerance<T: Scalar>(b: Seq<Cplx<T>>, rtol: T::Wide, atol: T::Wide) -> T {
    T::narrowed(
        rtol.times(wide_or(complex_euclidean(b), T::Wide::nought())).larger(atol),
    )
}

/// The state with which a solve starts.
pub open spec fn fresh_start<T: Scalar>(x: Seq<Cplx<T>>, restart: nat, aug_dim: nat) -> Outer<T> {
    Outer {
        x,
        aug: Seq::empty(),
        history: Seq::empty(),
        iters: 0,
        basis: Basis::blank(x.len(), restart + aug_dim),
    }
}

/// The last of the recorded lengths, infinity where there is none.
pub open spec fn last_recorded<W: Real>(history: Seq<W>) -> W {
    if history.len() > 0 {
        history.last()
    } else {
        W::unbounded()
    }
}

/// The result and the final `x` are those that the ending describes.
pub open spec fn reports<T: Scalar>(
    r: Result<ComplexGmresResult<T::Wide>, SolverError<T::Wide>>,
    x: Seq<Cplx<T>>,
    ending: Ending<T>,
    tol: T,
    max_iter: usize,
) -> bool {
    match ending {
        Ending::Checked { outer, beta } => {
            &&& r matches Ok(s)
            &&& s.iters == outer.iters
            &&& s.residual_norm == wide_or(beta, T::Wide::nought())
            &&& s.converged == beta.at_most(tol)
            &&& s.residual_history@ == outer.history
            &&& x == outer.x
        },
        Ending::Exhausted { outer } => {
            &&& r == Err::<ComplexGmresResult<T::Wide>, SolverError<T::Wide>>(
                SolverError::ConvergenceFailed { max_iter, residual: last_recorded(outer.history) },
            )
            &&& x == outer.x
        },
    }
}

/// The system `A x = b` that a solve is given, with its tolerance.
pub open spec fn posed<T: Scalar>(
    image: spec_fn(Seq<Cplx<T>>) -> Seq<Cplx<T>>,
    precond: Option<&dyn Preconditioner<Cplx<T>>>,
    b: Seq<Cplx<T>>,
    rtol: T::Wide,
    atol: T::Wide,
    max_iter: nat,
    restart: nat,
    aug_dim: nat,
) -> System<T> {
    System {
        image,
        correction: |v: Seq<Cplx<T>>| preconditioned(precond, v),
        b,
        tol: tolerance::<T>(b, rtol, atol),
        max_iter,
        restart,
        aug_dim,
    }
}

/// What a solve that starts from `x0` answers: an error where the dimensions do not fit, zero for a
/// negligible right-hand side, and else how the cycles end.
pub open spec fn answers<T: Scalar>(
    rows: nat,
    cols: nat,
    system: System<T>,
    x0: Seq<Cplx<T>>,
    r: Result<ComplexGmresResult<T::Wide>, SolverError<T::Wide>>,
    x: Seq<Cplx<T>>,
    max_iter: usize,
) -> bool {
    let n = system.b.len();
    if rows != n || cols != n || x0.len() != n {
        &&& r matches Err(SolverError::DimensionMismatch { op_rows, op_cols, rhs_len })
        &&& op_rows == rows
        &&& op_cols == cols
        &&& rhs_len == n
        &&& x == x0
    } else if complex_euclidean(system.b).less(T::resolution()) {
        &&& r matches Ok(s)
        &&& s.iters == 0
        &&& s.residual_norm == T::Wide::nought()
        &&& s.converged
        &&& s.residual_history@ == seq![T::Wide::nought()]
        &&& x == zero_vector::<Cplx<T>>(n)
    } else {
        reports(
            r,
            x,
            system.solved(fresh_start(x0, system.restart, system.aug_dim)),
            system.tol,
            max_iter,
        )
    }
}

impl<T: Scalar> ComplexLgmres<T> {
    /// Solves `A x = b`, starting from the given `x`. The solve succeeds where the residual
    /// `b − A x` of the returned `x` has a norm within the tolerance.
    pub fn solve(
        &self,
        op: &dyn LinearOperator<Cplx<T>>,
        precond: Option<&dyn Preconditioner<Cplx<T>>>,
        b: &DenseVec<Cplx<T>>,
        x: &mut DenseVec<Cplx<T>>,
        rtol: T::Wide,
        atol: T::Wide,
        max_iter: usize,
    ) -> (r: Result<ComplexGmresResult<T::Wide>, SolverError<T::Wide>>)
        requires
            self.wf(),
        ensures
            answers(
                op.rows(),
                op.cols(),
                posed(
                    |v: Seq<Cplx<T>>| op.image(v),
                    precond,
                    b@,
                    rtol,
                    atol,
                    max_iter as nat,
                    self.restart as nat,
                    self.aug_dim as nat,
                ),
                old(x)@,
                r,
                final(x)@,
                max_iter,
            ),
            !complex_euclidean(b@).less(T::resolution()) ==> (r matches Ok(s) ==> {
                let norm = complex_euclidean(
                    Seq::new(b@.len(), |i: int| b@[i].minus(op.image(final(x)@)[i])),
                );
                &&& s.residual_norm == wide_or(norm, T::Wide::nought())
                &&& s.converged == norm.at_most(tolerance::<T>(b@, rtol, atol))
                &&& s.converged || max_iter == 0
                &&& s.iters <= max_iter
            }),
    {
        let n = b.len();
        if op.nrows() != n || op.ncols() != n || x.len() != n {
            return Err(
                SolverError::DimensionMismatch {
                    op_rows: op.nrows(),
                    op_cols: op.ncols(),
                    rhs_len: n,
                },
            );
        }
        let m = self.restart;
        let k = self.aug_dim;
        let mut ws = ComplexLgmresWorkspace::<T>::new(n, m, k);
        let norm_b = complex_norm(b.as_slice());
        if norm_b.lt(T::epsilon()) {
            x.fill(Cplx::zero());
            assert(x@ =~= zero_vector::<Cplx<T>>(b@.len()));
            let mut history: Vec<T::Wide> = Vec::new();
            history.push(T::Wide::zero());
            assert(history@ =~= seq![T::Wide::nought()]);
            return Ok(
                ComplexGmresResult {
                    iters: 0,
                    residual_norm: T::Wide::zero(),
                    converged: true,
                    residual_history: history,
                },
            );
        }
        let tol = T::from_wide(rtol.mul(widen(norm_b, T::Wide::zero())).max(atol));
        let ghost size = (m + k) as nat;
        let ghost system = posed(
            |v: Seq<Cplx<T>>| op.image(v),
            precond,
            b@,
            rtol,
            atol,
            max_iter as nat,
            m as nat,
            k as nat,
        );
        let ghost start = fresh_start(x@, m as nat, k as nat);
        let ghost ending = system.solved(start);
        let mut residual_history: Vec<T::Wide> = Vec::new();
        let mut total_iters: usize = 0;
        let mut aug_vecs: Vec<DenseVec<Cplx<T>>> = Vec::new();
        let ghost mut outer = start;
        proof {
            assert(columns(aug_vecs@) =~= start.aug);
            assert(residual_history@ =~= start.history);
        }
        loop
            invariant_except_break
                ending == system.solved(outer),
                total_iters < max_iter || outer == start,
            invariant
                n == b@.len(),
                op.rows() == n,
                op.cols() == n,
                m == self.restart,
                k == self.aug_dim,
                self.wf(),
                size == m + k,
                tol == tolerance::<T>(b@, rtol, atol),
                system == posed(
                    |v: Seq<Cplx<T>>| op.image(v),
                    precond,
                    b@,
                    rtol,
                    atol,
                    max_iter as nat,
                    m as nat,
                    k as nat,
                ),
                old(x)@.len() == n,
                !complex_euclidean(b@).less(T::resolution()),
                start == fresh_start(old(x)@, m as nat, k as nat),
                ending == system.solved(start),
                x@.len() == n,
                ws.fits(n as nat, size),
                aug_vecs@.len() <= k,
                all_of_length(columns(aug_vecs@), n as nat),
                outer == (Outer {
                    x: x@,
                    aug: columns(aug_vecs@),
                    history: residual_history@,
                    iters: total_iters as nat,
                    basis: ws.basis(),
                }),
            ensures
                ending == (Ending::Exhausted { outer }),
            decreases max_iter - total_iters,
        {
            op.apply(x, &mut ws.r);
            let ghost ax = ws.r@;
            let ghost want_r = system.residual(x@);
            let mut i: usize = 0;
            while i < n
                invariant
                    i <= n,
                    n == b@.len(),
                    ax.len() == n,
                    ws.r@.len() == n,
                    want_r == Seq::new(b@.len(), |i: int| b@[i].minus(ax[i])),
                    ws.fits(n as nat, size),
                    ws.basis() == outer.basis,
                    forall|c: int| 0 <= c < i ==> ws.r@[c] == want_r[c],
                    forall|c: int| i <= c < n ==> ws.r@[c] == ax[c],
                decreases n - i,
            {
                let difference = b.data[i].sub(ws.r.data[i]);
                ws.r.data.set(i, difference);
                i = i + 1;
                assert(ws.basis() =~= outer.basis);
            }
            assert(ws.r@ =~= want_r);
            let beta = complex_norm(ws.r.as_slice());
            if beta.le(tol) || total_iters >= max_iter {
                proof {
                    system.lemma_ending(start);
                    assert(want_r == Seq::new(b@.len(), |i: int| b@[i].minus(op.image(x@)[i])));
                }
                return Ok(
                    ComplexGmresResult {
                        iters: total_iters,
                        residual_norm: widen(beta, T::Wide::zero()),
                        converged: beta.le(tol),
                        residual_history,
                    },
                );
            }
            let inv_beta = Cplx::from_real(T::one().div(beta));
            let mut v0 = ws.r.duplicate();
            v0.scale(inv_beta);
            let ghost v0_entries = v0@;
            ws.v.set(0, v0);
            ws.g = filled(m + k + 1, Cplx::zero());
            ws.g.set(0, Cplx::from_real(beta));
            ws.cs = filled(m + k, T::zero());
            ws.sn = filled(m + k, Cplx::zero());
            proof {
                let want = system.restarted(outer);
                assert(columns(ws.v@) =~= want.v);
                assert(ws.g@ =~= want.g);
                assert(ws.cs@ =~= want.cs);
                assert(ws.sn@ =~= want.sn);
                assert(ws.basis() =~= want);
                assert forall|c: int| 0 <= c < want.v.len() implies (#[trigger] want.v[c]).len()
                    == n by {
                    if c != 0 {
                        assert(want.v[c] == outer.basis.v[c]);
                    }
                }
            }
            let aug_count = if aug_vecs.len() <= k {
                aug_vecs.len()
            } else {
                k
            };
            let total_steps = m + aug_count;
            let (iters_a, count_a, done_a) = Self::sweep(
                op,
                precond,
                &mut ws,
                Some(&aug_vecs),
                0,
                aug_count,
                total_steps,
                (total_iters, 0),
                tol,
                max_iter,
                Ghost(system),
                Ghost(size),
            );
            let (iters, count, _done) = if done_a {
                (iters_a, count_a, done_a)
            } else {
                Self::sweep(
                    op,
                    precond,
                    &mut ws,
                    None,
                    aug_count,
                    total_steps,
                    total_steps,
                    (iters_a, count_a),
                    tol,
                    max_iter,
                    Ghost(system),
                    Ghost(size),
                )
            };
            proof {
                let both = system.both_phases(outer);
                assert(both.basis == ws.basis());
                assert(both.iters == iters);
                assert(both.filled == count);
                system.lemma_progress(outer);
            }
            let ghost before = outer;
            total_iters = iters;
            if count > 0 {
                Self::do_update(
                    precond,
                    &mut ws,
                    x,
                    &mut aug_vecs,
                    k,
                    count,
                    &mut residual_history,
                    Ghost(system),
                    Ghost(size),
                );
            }
            proof {
                outer = system.cycled(before);
                assert(outer =~= (Outer {
                    x: x@,
                    aug: columns(aug_vecs@),
                    history: residual_history@,
                    iters: total_iters as nat,
                    basis: ws.basis(),
                }));
            }
            if total_iters >= max_iter {
                break ;
            }
        }
        let residual = if residual_history.len() > 0 {
            residual_history[residual_history.len() - 1]
        } else {
            T::Wide::infinity()
        };
        Err(SolverError::ConvergenceFailed { max_iter, residual })
    }
}

} // verus!
