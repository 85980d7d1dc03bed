//! What a cycle of LGMRES is for, in exact arithmetic: of all updates along its directions, the one
//! it makes leaves the smallest residual.
use super::complex_gmres::rotation;
use super::complex_lgmres::{
    component, fresh_start, orthogonalised, rotated, triangular_solution, with_components, Basis,
    Ending, Outer, Sweep, System,
};
use super::frame::{
    are_rotations, frame, is_rotation, lead, lemma_frame, lemma_frame_stalled,
    lemma_lead_length, lemma_lead_same, lemma_rotated_same, lemma_rotated_total, of_length,
    of_norm_one, orthogonal, orthonormal, turned,
};
use super::identities::{
    lemma_back_substitution, lemma_cycle_residual, lemma_orthogonalisation,
    lemma_shifted_residual, shifted,
};
use super::unitary::{
    blend, is_real_field, lemma_axis, lemma_conjugate, lemma_inner, lemma_inner_self,
    lemma_length, lemma_negative_nought, lemma_normalised, lemma_quotient, lemma_rotation,
    lemma_square_norm, lemma_square_norm_positive, lemma_turn, order_laws, real_laws,
};
use crate::complex::Cplx;
use crate::eigen::block::{accumulate, all_of_length, lemma_accumulate_length};
use crate::eigen::invariants::acts_linearly;
use crate::eigen::orthonormal::lemma_accumulate_total;
use crate::exact::{
    is_ring, lemma_negative_sum, lemma_ring, lemma_times_negative, lemma_times_nought,
    lemma_total_front, lemma_total_nought, lemma_total_parts, lemma_total_plus,
    lemma_total_same, lemma_total_swap, lemma_total_times, total,
};
use crate::fourier::lemma_complex_ring;
use crate::scalar::{wide_or, Field, Real, Scalar};
use crate::vector::{
    complex_euclidean, inner_product, multiplied, square_sum, zero_vector,
};
use vstd::prelude::*;

verus! {

/// Entry `at` of the combination of the first `count` vectors with the given coefficients.
pub open spec fn combination<E: Field>(
    coefficients: Seq<E>,
    vectors: Seq<Seq<E>>,
    count: nat,
    at: int,
) -> E {
    total(count, |i: int| coefficients[i].times(vectors[i][at]))
}

impl<T: Scalar> System<T> {
    /// The image of the preconditioned direction of step `j`.
    pub open spec fn direction_image(
        self,
        aug: Seq<Seq<Cplx<T>>>,
        basis: Basis<T>,
        j: int,
    ) -> Seq<Cplx<T>> {
        (self.image)(self.preconditioned_direction(aug, basis, j))
    }

    /// After `p` steps of a cycle that started with the residual `r`: on the frame that the
    /// rotations turn the basis into, whose vectors are orthogonal to each other, the images of the
    /// directions have the columns of the triangular matrix as coordinates, and the residual has
    /// the rotated right-hand side.
    pub open spec fn settled(
        self,
        r: Seq<Cplx<T>>,
        aug: Seq<Seq<Cplx<T>>>,
        basis: Basis<T>,
        p: nat,
    ) -> bool {
        let n = self.b.len();
        let f = frame(basis.v, basis.cs, basis.sn, p);
        &&& of_length(f, n, p + 1)
        &&& orthogonal(f)
        &&& of_norm_one(f, p)
        &&& forall|j: int, at: int|
            0 <= j < p && 0 <= at < n ==> #[trigger] self.direction_image(aug, basis, j)[at]
                == combination(basis.h[j], f, (j + 1) as nat, at)
        &&& forall|at: int|
            0 <= at < n ==> #[trigger] r[at] == combination(basis.g, f, p + 1, at)
        &&& forall|j: int| 0 <= j < p - 1 ==> #[trigger] basis.h[j][j] != Cplx::<T>::nought()
        &&& basis.g[p as int] == Cplx::<T>::nought() || inner_product(f[p as int], f[p as int])
            == Cplx::<T>::unit()
        &&& forall|j: int| 0 <= j < p ==> #[trigger] self.spanned(aug, basis, j)
        &&& forall|j: int| 0 <= j < p - 1 ==> #[trigger] self.left_over(aug, basis, j) != T::nought()
    }

    /// The image of direction `j` is a combination of the first `j + 2` basis vectors.
    pub open spec fn spanned(self, aug: Seq<Seq<Cplx<T>>>, basis: Basis<T>, j: int) -> bool {
        let w = self.direction_image(aug, basis, j);
        forall|at: int|
            0 <= at < self.b.len() ==> #[trigger] w[at] == combination(
                coordinates(basis.v, w, j as nat),
                basis.v,
                (j + 2) as nat,
                at,
            )
    }

    /// The norm of what the image of direction `j` has besides the first `j + 1` basis vectors: its
    /// coefficient on the next one.
    pub open spec fn left_over(self, aug: Seq<Seq<Cplx<T>>>, basis: Basis<T>, j: int) -> T {
        complex_euclidean(
            orthogonalised(basis.v, self.direction_image(aug, basis, j), (j + 1) as nat),
        )
    }

    /// The same, where moreover the basis is orthonormal and no diagonal entry vanishes, so that
    /// another step can be made.
    pub open spec fn growing(
        self,
        r: Seq<Cplx<T>>,
        aug: Seq<Seq<Cplx<T>>>,
        basis: Basis<T>,
        p: nat,
    ) -> bool {
        &&& self.settled(r, aug, basis, p)
        &&& of_length(basis.v, self.b.len(), p + 1)
        &&& orthonormal(basis.v, p + 1)
        &&& are_rotations(basis.cs, basis.sn, p)
        &&& forall|j: int| 0 <= j < p ==> #[trigger] basis.h[j][j] != Cplx::<T>::nought()
        &&& forall|j: int| 0 <= j < p ==> #[trigger] self.left_over(aug, basis, j) != T::nought()
    }
}

/// Orthogonalisation keeps the length.
proof fn lemma_orthogonalised_length<T: Scalar>(
    v: Seq<Seq<Cplx<T>>>,
    w: Seq<Cplx<T>>,
    count: nat,
)
    ensures
        orthogonalised(v, w, count).len() == w.len(),
    decreases count,
{
    if count > 0 {
        lemma_orthogonalised_length(v, w, (count - 1) as nat);
    }
}

/// In exact arithmetic, what orthogonalisation leaves is orthogonal to the basis vectors.
pub proof fn lemma_orthogonalised<T: Scalar>(
    v: Seq<Seq<Cplx<T>>>,
    w: Seq<Cplx<T>>,
    n: nat,
    count: nat,
    k: nat,
    i: int,
)
    requires
        is_ring::<T>(),
        of_length(v, n, count),
        orthonormal(v, count),
        w.len() == n,
        0 <= i < k <= count,
    ensures
        inner_product(v[i], orthogonalised(v, w, k)) == Cplx::<T>::nought(),
    decreases k,
{
    lemma_complex_ring::<T>();
    let (zero, one) = (Cplx::<T>::nought(), Cplx::<T>::unit());
    let rest = orthogonalised(v, w, (k - 1) as nat);
    lemma_orthogonalised_length(v, w, (k - 1) as nat);
    let u = v[k - 1];
    let h = inner_product(u, rest);
    let now = orthogonalised(v, w, k);
    let same = blend(one, rest, h.negated(), u);
    assert forall|at: int| 0 <= at < n implies same[at] == now[at] by {
        lemma_ring(rest[at], one, one);
    }
    assert(same =~= now);
    assert(v[i].len() == n && u.len() == n);
    lemma_inner(v[i], one, rest, h.negated(), u);
    let part = inner_product(v[i], rest);
    lemma_ring(part, one, one);
    if i < k - 1 {
        lemma_orthogonalised(v, w, n, count, (k - 1) as nat, i);
        assert(inner_product(v[i], u) == zero);
        lemma_times_nought(h.negated());
        lemma_ring(zero, zero, zero);
    } else {
        assert(inner_product(u, u) == one);
        lemma_ring(h.negated(), one, one);
        lemma_ring(h, h, h);
    }
}

/// A vector without norm is zero.
proof fn lemma_no_norm<T: Real>(a: Seq<Cplx<T>>, n: nat, at: int)
    requires
        is_real_field::<T>(),
        square_sum(a, n) == T::nought(),
        0 <= at < n,
    ensures
        a[at] == Cplx::<T>::nought(),
    decreases n,
{
    let less = (n - 1) as nat;
    lemma_inner_self(a, less);
    lemma_square_norm_positive(a[n - 1]);
    assert(real_laws(square_sum(a, less), a[n - 1].square_norm()));
    if at < n - 1 {
        lemma_no_norm(a, less, at);
    }
}

/// The column of coordinates of the image `w`: its components along the first `p + 1` basis
/// vectors, and the norm of what is left.
pub open spec fn coordinates<T: Scalar>(
    v: Seq<Seq<Cplx<T>>>,
    w: Seq<Cplx<T>>,
    p: nat,
) -> Seq<Cplx<T>> {
    Seq::new(
        p + 2,
        |i: int|
            if i <= p {
                component(v, w, i)
            } else {
                Cplx::on_axis(complex_euclidean(orthogonalised(v, w, p + 1)))
            },
    )
}

/// What is left of a vector, normalised; zero where nothing is left.
pub open spec fn fresh_unit<T: Scalar>(rest: Seq<Cplx<T>>) -> Seq<Cplx<T>> {
    let norm = complex_euclidean(rest);
    if norm != T::nought() {
        multiplied(rest, Cplx::on_axis(T::unit().over(norm)))
    } else {
        zero_vector::<Cplx<T>>(rest.len())
    }
}

/// A new basis vector: it is orthonormal to those before it, unless it is zero, and the image is
/// the combination with its coordinates.
proof fn lemma_fresh<T: Scalar>(v: Seq<Seq<Cplx<T>>>, w: Seq<Cplx<T>>, n: nat, p: nat)
    requires
        is_real_field::<T>(),
        of_length(v, n, p + 1),
        orthonormal(v, p + 1),
        w.len() == n,
        v.len() >= p + 2,
    ensures
        ({
            let rest = orthogonalised(v, w, p + 1);
            let all = v.update(p as int + 1, fresh_unit(rest));
            &&& of_length(all, n, p + 2)
            &&& complex_euclidean(rest) != T::nought() ==> orthonormal(all, p + 2)
            &&& orthonormal(all, p + 1)
            &&& forall|at: int|
                0 <= at < n ==> #[trigger] w[at] == combination(coordinates(v, w, p), all, p + 2, at)
        }),
{
    lemma_complex_ring::<T>();
    let (zero, one) = (Cplx::<T>::nought(), Cplx::<T>::unit());
    let rest = orthogonalised(v, w, p + 1);
    lemma_orthogonalised_length(v, w, p + 1);
    let norm = complex_euclidean(rest);
    let u = fresh_unit(rest);
    let all = v.update(p as int + 1, u);
    assert forall|i: int| 0 <= i < p + 2 implies (#[trigger] all[i]).len() == n by {
        if i <= p {
            assert(all[i] == v[i]);
        }
    }
    assert forall|i: int, j: int| 0 <= i < p + 1 && 0 <= j < p + 1 implies
        #[trigger] inner_product(all[i], all[j]) == (if i == j {
        one
    } else {
        zero
    }) by {
        assert(inner_product(v[i], v[j]) == (if i == j {
            one
        } else {
            zero
        }));
    }
    if norm != T::nought() {
        lemma_normalised(rest);
        let q = Cplx::on_axis(T::unit().over(norm));
        let same = blend(q, rest, zero, rest);
        assert forall|at: int| 0 <= at < n implies same[at] == u[at] by {
            lemma_ring(q, rest[at], zero);
            lemma_times_nought(rest[at]);
            lemma_ring(u[at], zero, zero);
        }
        assert(same =~= u);
        assert forall|i: int| 0 <= i <= p implies #[trigger] inner_product(v[i], u) == zero
            && inner_product(u, v[i]) == zero by {
            assert(v[i].len() == n);
            lemma_orthogonalised(v, w, n, p + 1, p + 1, i);
            lemma_inner(v[i], q, rest, zero, rest);
            lemma_times_nought(q);
            lemma_times_nought(zero);
            lemma_ring(zero, zero, zero);
            lemma_inner(v[i], one, u, one, u);
            lemma_conjugate(zero, zero);
        }
        assert forall|i: int, j: int| 0 <= i < p + 2 && 0 <= j < p + 2 implies
            #[trigger] inner_product(all[i], all[j]) == (if i == j {
            one
        } else {
            zero
        }) by {
            if i <= p && j <= p {
                assert(inner_product(v[i], v[j]) == (if i == j {
                    one
                } else {
                    zero
                }));
            } else if i <= p {
                assert(inner_product(v[i], u) == zero);
            } else if j <= p {
                assert(inner_product(v[j], u) == zero);
            }
        }
    }
    let coords = coordinates(v, w, p);
    assert forall|at: int| 0 <= at < n implies #[trigger] w[at] == combination(
        coords,
        all,
        p + 2,
        at,
    ) by {
        lemma_orthogonalisation(v, w, p + 1, at);
        let term = |i: int| coords[i].times(all[i][at]);
        lemma_total_same(p + 1, |i: int| component(v, w, i).times(v[i][at]), term);
        // The last term is what is left.
        let cn = Cplx::on_axis(norm);
        assert(term(p as int + 1) == rest[at]) by {
            if norm != T::nought() {
                assert(cn.times(u[at]) == rest[at]);
            } else {
                lemma_inner_self(rest, n);
                assert(real_laws(square_sum(rest, n), square_sum(rest, n)));
                lemma_times_nought(T::nought());
                lemma_no_norm(rest, n, at);
                lemma_times_nought(cn);
            }
        }
        lemma_ring(rest[at], total(p + 1, term), one);
        assert(total(p + 2, term) == total(p + 1, term).plus(term(p as int + 1)));
    }
}

/// The basis after a step, with the new basis vector entered.
pub open spec fn stepped<T: Scalar>(
    system: System<T>,
    basis: Basis<T>,
    direction: Seq<Cplx<T>>,
    p: nat,
) -> Basis<T> {
    let ext = system.extended(basis, direction, p);
    Basis {
        v: ext.v.update(p as int + 1, fresh_unit(system.fresh_part(basis, direction, p))),
        ..ext
    }
}

/// The rotation of a step, the column that it gives, and the frame before and after it.
proof fn lemma_step_column<T: Scalar>(
    system: System<T>,
    basis: Basis<T>,
    direction: Seq<Cplx<T>>,
    p: nat,
    size: nat,
)
    requires
        is_real_field::<T>(),
        of_length(basis.v, system.b.len(), p + 1),
        orthonormal(basis.v, p + 1),
        are_rotations(basis.cs, basis.sn, p),
        basis.shaped(system.b.len(), size),
        p < size,
        system.arnoldi_image(direction).len() == system.b.len(),
    ensures
        ({
            let n = system.b.len();
            let w = system.arnoldi_image(direction);
            let next = system.fresh_norm(basis, direction, p);
            let after = stepped(system, basis, direction, p);
            let f = frame(after.v, after.cs, after.sn, p + 1);
            &&& after.shaped(n, size)
            &&& of_length(after.v, n, p + 2)
            &&& are_rotations(after.cs, after.sn, p + 1)
            &&& next != T::nought() ==> orthonormal(after.v, p + 2)
            &&& next != T::nought() ==> after.h[p as int][p as int] != Cplx::<T>::nought()
            &&& next == T::nought() ==> after.g[p as int + 1] == Cplx::<T>::nought()
            &&& of_length(f, n, p + 2)
            &&& orthogonal(f)
            &&& of_norm_one(f, p + 1)
            &&& forall|at: int|
                0 <= at < n ==> #[trigger] w[at] == combination(
                    after.h[p as int],
                    f,
                    p + 1,
                    at,
                )
        }),
{
    lemma_complex_ring::<T>();
    let (zero, one) = (Cplx::<T>::nought(), Cplx::<T>::unit());
    let n = system.b.len();
    let pi = p as int;
    let w = system.arnoldi_image(direction);
    let v = basis.v;
    let next = system.fresh_norm(basis, direction, p);
    let cnext = Cplx::on_axis(next);
    let after = stepped(system, basis, direction, p);
    let f = frame(after.v, after.cs, after.sn, p + 1);
    lemma_fresh(v, w, n, p);
    let coords = coordinates(v, w, p);
    assert(basis.h[pi].len() == size + 1);
    let entered = with_components(basis.h[pi], v, w, p + 1);
    let column = rotated(entered, basis.cs, basis.sn, p);
    let almost = rotated(coords, after.cs, after.sn, p);
    lemma_rotated_same(coords, after.cs, after.sn, entered, basis.cs, basis.sn, p);
    lemma_rotated_same(entered, basis.cs, basis.sn, coords, after.cs, after.sn, p);
    assert(almost[pi + 1] == cnext);
    assert(almost[pi] == column[pi]);
    let (c, s) = rotation(column[pi], cnext);
    let cc = Cplx::on_axis(c);
    lemma_rotation(column[pi], cnext);
    assert(after.cs[pi] == c && after.sn[pi] == s);
    assert forall|i: int| 0 <= i < p + 1 implies #[trigger] is_rotation(after.cs, after.sn, i) by {
        if i < p {
            assert(is_rotation(basis.cs, basis.sn, i));
        }
    }
    assert forall|i: int| 0 <= i < after.v.len() implies (#[trigger] after.v[i]).len() == n by {
        if i != p + 1 {
            assert(v[i].len() == n);
        } else {
            assert(v.update(pi + 1, fresh_unit(orthogonalised(v, w, p + 1)))[i].len() == n);
        }
    }
    assert forall|i: int| 0 <= i < after.h.len() implies (#[trigger] after.h[i]).len() == size
        + 1 by {
        assert(basis.h[i].len() == size + 1);
    }
    let done = rotated(coords, after.cs, after.sn, p + 1);
    assert(done[pi + 1] == zero);
    assert forall|i: int| 0 <= i <= p implies #[trigger] done[i] == after.h[pi][i] by {
        assert(almost[i] == column[i]);
    }
    if next != T::nought() {
        lemma_frame(after.v, after.cs, after.sn, n, p + 1);
        if after.h[pi][pi] == zero {
            // The two coordinates come back when the rotation is undone.
            lemma_turn(cc, s, column[pi], cnext, zero, one);
            let (x, y) = (
                cc.times(zero).plus(s.conjugate().times(one)),
                s.negated().times(zero).plus(cc.times(one)),
            );
            lemma_times_nought(x);
            lemma_times_nought(y);
            lemma_times_nought(column[pi]);
            lemma_ring(zero, zero, zero);
            lemma_ring(cnext, one, one);
            lemma_ring(cnext, zero, zero);
            assert(cnext == zero);
        }
    } else {
        lemma_length(zero);
        assert(c == T::unit() && s == zero);
        lemma_conjugate(zero, zero);
        lemma_negative_nought::<Cplx<T>>();
        lemma_times_nought(basis.g[pi]);
        lemma_frame_stalled(after.v, after.cs, after.sn, n, p);
    }
    assert forall|at: int| 0 <= at < n implies #[trigger] w[at] == combination(
        after.h[pi],
        f,
        p + 1,
        at,
    ) by {
        lemma_rotated_total(coords, after.v, after.cs, after.sn, n, p + 1, at);
        let full = |i: int| done[i].times(turned(after.v, after.cs, after.sn, p + 1, i)[at]);
        let kept = |i: int| after.h[pi][i].times(f[i][at]);
        assert forall|i: int| 0 <= i < p + 1 implies #[trigger] full(i) == kept(i) by {
            assert(done[i] == after.h[pi][i]);
        }
        lemma_total_same(p + 1, full, kept);
        lemma_times_nought(turned(after.v, after.cs, after.sn, p + 1, pi + 1)[at]);
        lemma_ring(total(p + 1, kept), zero, zero);
        assert(total(p + 2, full) == total(p + 1, full).plus(full(pi + 1)));
    }
}

/// A step keeps the coordinates, and lets another step be made unless nothing was left of the
/// image.
proof fn lemma_step<T: Scalar>(
    system: System<T>,
    r: Seq<Cplx<T>>,
    aug: Seq<Seq<Cplx<T>>>,
    basis: Basis<T>,
    direction: Seq<Cplx<T>>,
    p: nat,
    size: nat,
)
    requires
        is_real_field::<T>(),
        system.growing(r, aug, basis, p),
        basis.shaped(system.b.len(), size),
        p < size,
        direction == (if p < aug.len() {
            aug[p as int]
        } else {
            basis.v[p as int]
        }),
        system.arnoldi_image(direction).len() == system.b.len(),
    ensures
        ({
            let next = system.fresh_norm(basis, direction, p);
            let after = stepped(system, basis, direction, p);
            &&& after.shaped(system.b.len(), size)
            &&& system.settled(r, aug, after, p + 1)
            &&& next != T::nought() ==> system.growing(r, aug, after, p + 1)
            &&& next == T::nought() ==> after.g[p as int + 1] == Cplx::<T>::nought()
        }),
{
    lemma_complex_ring::<T>();
    let zero = Cplx::<T>::nought();
    let n = system.b.len();
    let pi = p as int;
    let next = system.fresh_norm(basis, direction, p);
    let after = stepped(system, basis, direction, p);
    lemma_step_column(system, basis, direction, p, size);
    let (before, f) = (
        frame(basis.v, basis.cs, basis.sn, p),
        frame(after.v, after.cs, after.sn, p + 1),
    );
    // The axes stay.
    assert forall|i: int| 0 <= i < p implies #[trigger] f[i] == before[i] by {
        lemma_lead_same(basis.v, basis.cs, basis.sn, after.v, after.cs, after.sn, i as nat);
    }
    lemma_lead_same(basis.v, basis.cs, basis.sn, after.v, after.cs, after.sn, p);
    assert forall|j: int, at: int| 0 <= j < p + 1 && 0 <= at < n implies
        #[trigger] system.direction_image(aug, after, j)[at] == combination(
        after.h[j],
        f,
        (j + 1) as nat,
        at,
    ) by {
        if j < p {
            assert(system.direction_image(aug, after, j) == system.direction_image(aug, basis, j));
            assert(system.direction_image(aug, basis, j)[at] == combination(
                basis.h[j],
                before,
                (j + 1) as nat,
                at,
            ));
            let (old_term, new_term) = (
                |i: int| basis.h[j][i].times(before[i][at]),
                |i: int| after.h[j][i].times(f[i][at]),
            );
            assert forall|i: int| 0 <= i < j + 1 implies #[trigger] old_term(i) == new_term(i) by {
                assert(f[i] == before[i]);
            }
            lemma_total_same((j + 1) as nat, old_term, new_term);
        } else {
            assert(system.direction_image(aug, after, j) == system.arnoldi_image(direction));
            assert(system.arnoldi_image(direction)[at] == combination(after.h[pi], f, p + 1, at));
        }
    }
    // The last coordinate of the residual is split between the new axis and the new leading
    // vector.
    assert forall|at: int| 0 <= at < n implies #[trigger] r[at] == combination(
        after.g,
        f,
        p + 2,
        at,
    ) by {
        assert(r[at] == combination(basis.g, before, p + 1, at));
        let (old_term, new_term) = (
            |i: int| basis.g[i].times(before[i][at]),
            |i: int| after.g[i].times(f[i][at]),
        );
        assert forall|i: int| 0 <= i < p implies #[trigger] old_term(i) == new_term(i) by {
            assert(f[i] == before[i]);
        }
        lemma_total_same(p, old_term, new_term);
        let (c, s) = (Cplx::on_axis(after.cs[pi]), after.sn[pi]);
        assert(is_rotation(after.cs, after.sn, pi));
        let a = basis.g[pi];
        let l = lead(basis.v, basis.cs, basis.sn, p);
        let u = after.v[pi + 1];
        lemma_lead_length(basis.v, basis.cs, basis.sn, n, p);
        lemma_turn(c, s, a, zero, l[at], u[at]);
        lemma_times_nought(s);
        lemma_times_nought(c);
        lemma_times_nought(u[at]);
        lemma_ring(c.times(a), zero, zero);
        lemma_ring(s.conjugate().negated().times(a), zero, zero);
        lemma_ring(a.times(l[at]), zero, zero);
        assert(new_term(pi) == c.times(a).times(
            c.times(l[at]).plus(s.conjugate().times(u[at])),
        ));
        assert(new_term(pi + 1) == s.conjugate().negated().times(a).times(
            s.negated().times(l[at]).plus(c.times(u[at])),
        ));
        assert(old_term(pi) == a.times(l[at]));
        lemma_ring(total(p, new_term), new_term(pi), new_term(pi + 1));
        assert(total(p + 2, new_term) == total(p + 1, new_term).plus(new_term(pi + 1)));
        assert(total(p + 1, new_term) == total(p, new_term).plus(new_term(pi)));
        assert(total(p + 1, old_term) == total(p, old_term).plus(old_term(pi)));
    }
    assert forall|j: int| 0 <= j < p implies #[trigger] after.h[j][j] != zero by {
        assert(basis.h[j][j] != zero);
    }
    if next != T::nought() {
        lemma_frame(after.v, after.cs, after.sn, n, p + 1);
    }
    // The images lie in the span of the basis.
    assert forall|j: int| 0 <= j < p + 1 implies #[trigger] system.spanned(aug, after, j) by {
        let w = system.direction_image(aug, after, j);
        if j < p {
            assert(system.spanned(aug, basis, j));
            assert(w == system.direction_image(aug, basis, j));
            lemma_coordinates_same(basis.v, after.v, w, j as nat);
            let c = coordinates(after.v, w, j as nat);
            assert forall|at: int| 0 <= at < n implies #[trigger] w[at] == combination(
                c,
                after.v,
                (j + 2) as nat,
                at,
            ) by {
                assert(w[at] == combination(c, basis.v, (j + 2) as nat, at));
                lemma_total_same(
                    (j + 2) as nat,
                    |i: int| c[i].times(basis.v[i][at]),
                    |i: int| c[i].times(after.v[i][at]),
                );
            }
        } else {
            assert(w == system.arnoldi_image(direction));
            lemma_fresh(basis.v, w, n, p);
            lemma_coordinates_same(basis.v, after.v, w, p);
        }
    }
    assert forall|j: int| 0 <= j < p implies #[trigger] system.left_over(aug, after, j)
        != T::nought() by {
        assert(system.left_over(aug, basis, j) != T::nought());
        assert(system.direction_image(aug, after, j) == system.direction_image(aug, basis, j));
        lemma_coordinates_same(
            basis.v,
            after.v,
            system.direction_image(aug, basis, j),
            j as nat,
        );
    }
    if next != T::nought() {
        assert(system.direction_image(aug, after, pi) == system.arnoldi_image(direction));
        lemma_coordinates_same(basis.v, after.v, system.arnoldi_image(direction), p);
        assert(system.left_over(aug, after, pi) == next);
    }
}

/// Coordinates depend on the basis vectors before the new one only.
proof fn lemma_coordinates_same<T: Scalar>(
    v: Seq<Seq<Cplx<T>>>,
    other: Seq<Seq<Cplx<T>>>,
    w: Seq<Cplx<T>>,
    p: nat,
)
    requires
        forall|i: int| 0 <= i <= p ==> #[trigger] v[i] == other[i],
    ensures
        coordinates(v, w, p) == coordinates(other, w, p),
        orthogonalised(v, w, p + 1) == orthogonalised(other, w, p + 1),
{
    lemma_orthogonalised_same(v, other, w, p + 1);
    assert forall|i: int| 0 <= i < p + 2 implies coordinates(v, w, p)[i] == coordinates(
        other,
        w,
        p,
    )[i] by {
        if i <= p {
            lemma_orthogonalised_same(v, other, w, i as nat);
            assert(v[i] == other[i]);
        }
    }
    assert(coordinates(v, w, p) =~= coordinates(other, w, p));
}

proof fn lemma_orthogonalised_same<T: Scalar>(
    v: Seq<Seq<Cplx<T>>>,
    other: Seq<Seq<Cplx<T>>>,
    w: Seq<Cplx<T>>,
    k: nat,
)
    requires
        forall|i: int| 0 <= i < k ==> #[trigger] v[i] == other[i],
    ensures
        orthogonalised(v, w, k) == orthogonalised(other, w, k),
    decreases k,
{
    if k > 0 {
        lemma_orthogonalised_same(v, other, w, (k - 1) as nat);
        assert(v[k - 1] == other[k - 1]);
    }
}

/// The operator and the preconditioner keep the length of vectors with `n` entries.
pub open spec fn keeps_length<T: Scalar>(system: System<T>) -> bool {
    let n = system.b.len();
    &&& forall|x: Seq<Cplx<T>>| x.len() == n ==> (#[trigger] (system.image)(x)).len() == n
    &&& forall|x: Seq<Cplx<T>>| x.len() == n ==> (#[trigger] (system.correction)(x)).len() == n
}

/// A state of a solve with vectors of one length, room for the steps, and a tolerance that is not
/// negative.
pub open spec fn fits<T: Scalar>(system: System<T>, outer: Outer<T>, size: nat) -> bool {
    &&& keeps_length(system)
    &&& acts_linearly(system.image, system.b.len())
    &&& system.restart >= 1
    &&& system.restart + system.aug_dim <= size
    &&& T::nought().at_most(system.tol)
    &&& outer.x.len() == system.b.len()
    &&& outer.aug.len() <= system.aug_dim
    &&& all_of_length(outer.aug, system.b.len())
    &&& outer.basis.shaped(system.b.len(), size)
}

/// A state with which a solve makes another cycle: the residual is not within the tolerance, and
/// the iteration limit is not reached.
pub open spec fn ready<T: Scalar>(system: System<T>, outer: Outer<T>, size: nat) -> bool {
    &&& fits(system, outer, size)
    &&& outer.iters < system.max_iter
    &&& !complex_euclidean(system.residual(outer.x)).at_most(system.tol)
}

/// The basis with `u` as basis vector `p`.
pub open spec fn completed<T: Scalar>(basis: Basis<T>, p: nat, u: Seq<Cplx<T>>) -> Basis<T> {
    Basis { v: basis.v.update(p as int, u), ..basis }
}

/// A norm is not negative, and exceeds the resolution unless it is zero.
proof fn lemma_norm<T: Real>(a: Seq<Cplx<T>>)
    requires
        is_real_field::<T>(),
    ensures
        T::nought().at_most(complex_euclidean(a)),
        T::resolution().less(complex_euclidean(a)) <==> complex_euclidean(a) != T::nought(),
{
    lemma_inner_self(a, a.len());
    let square = square_sum(a, a.len());
    assert(real_laws(square, square));
    assert(real_laws(square.root(), square));
}

/// The steps of a phase keep the coordinates. Where the phase is not the last one, and the
/// tolerance is not met, another step can be made after it.
proof fn lemma_swept_settles<T: Scalar>(
    system: System<T>,
    r: Seq<Cplx<T>>,
    aug: Seq<Seq<Cplx<T>>>,
    sweep: Sweep<T>,
    along: Option<Seq<Seq<Cplx<T>>>>,
    j: nat,
    end: nat,
    total: nat,
    size: nat,
)
    requires
        is_real_field::<T>(),
        keeps_length(system),
        all_of_length(aug, system.b.len()),
        T::nought().at_most(system.tol),
        system.growing(r, aug, sweep.basis, j),
        sweep.basis.shaped(system.b.len(), size),
        sweep.filled == j,
        !sweep.done,
        j <= end <= total <= size,
        match along {
            Some(a) => a == aug && end <= aug.len(),
            None => j >= aug.len(),
        },
    ensures
        ({
            let last = system.swept(sweep, along, j, end, total);
            &&& j <= last.filled <= end
            &&& j < end && sweep.iters < system.max_iter ==> j < last.filled
            &&& last.basis.shaped(system.b.len(), size)
            &&& exists|u: Seq<Cplx<T>>|
                system.settled(r, aug, #[trigger] completed(last.basis, last.filled, u), last.filled)
            &&& !last.done && end < total ==> system.growing(r, aug, last.basis, last.filled)
            &&& !last.done ==> last.filled == end || last.iters >= system.max_iter
            &&& last.done ==> last.basis.g[last.filled as int].length().at_most(system.tol)
            &&& last.iters - sweep.iters == last.filled - j
        }),
    decreases end - j,
{
    let last = system.swept(sweep, along, j, end, total);
    if j >= end || sweep.iters >= system.max_iter {
        let same = completed(sweep.basis, j, sweep.basis.v[j as int]);
        assert(same.v =~= sweep.basis.v);
        let v = sweep.basis.v[j as int];
        assert(system.settled(r, aug, completed(last.basis, last.filled, v), j));
    } else {
        let ji = j as int;
        let direction = match along {
            Some(a) => a[ji],
            None => sweep.basis.v[ji],
        };
        assert(direction.len() == system.b.len()) by {
            assert(sweep.basis.v[ji].len() == system.b.len());
        }
        assert((system.correction)(direction).len() == system.b.len());
        assert(system.arnoldi_image(direction).len() == system.b.len());
        lemma_step(system, r, aug, sweep.basis, direction, j, size);
        let basis = system.extended(sweep.basis, direction, j);
        let rest = system.fresh_part(sweep.basis, direction, j);
        let next = system.fresh_norm(sweep.basis, direction, j);
        let after = stepped(system, sweep.basis, direction, j);
        lemma_norm(rest);
        assert(after == completed(basis, j + 1, fresh_unit(rest)));
        assert(basis.shaped(system.b.len(), size)) by {
            assert forall|i: int| 0 <= i < basis.h.len() implies (#[trigger] basis.h[i]).len()
                == size + 1 by {
                assert(after.h[i].len() == size + 1);
            }
        }
        lemma_length(Cplx::<T>::nought());
        assert(after.g == basis.g);
        assert(system.settled(r, aug, completed(basis, j + 1, fresh_unit(rest)), j + 1));
        if basis.g[ji + 1].length().at_most(system.tol) {
            assert(last.basis == basis && last.filled == j + 1 && last.done);
        } else if T::resolution().less(next) && j + 1 < total {
            let on = Sweep { basis: after, iters: sweep.iters + 1, filled: j + 1, done: false };
            lemma_swept_settles(system, r, aug, on, along, j + 1, end, total, size);
            assert(last == system.swept(on, along, j + 1, end, total));
        } else {
            assert(last.basis == basis && last.filled == j + 1);
            assert(next != T::nought());
            assert(j + 1 >= total);
        }
    }
}

/// All the steps of a cycle keep the coordinates.
proof fn lemma_cycle_settles<T: Scalar>(system: System<T>, outer: Outer<T>, size: nat)
    requires
        is_real_field::<T>(),
        ready(system, outer, size),
    ensures
        ({
            let sweep = system.both_phases(outer);
            &&& 0 < sweep.filled <= size
            &&& sweep.filled == system.restart + outer.aug.len() || sweep.iters >= system.max_iter
                || sweep.basis.g[sweep.filled as int].length().at_most(system.tol)
            &&& sweep.iters - outer.iters == sweep.filled
            &&& sweep.basis.shaped(system.b.len(), size)
            &&& exists|u: Seq<Cplx<T>>|
                system.settled(
                    system.residual(outer.x),
                    outer.aug,
                    #[trigger] completed(sweep.basis, sweep.filled, u),
                    sweep.filled,
                )
        }),
{
    lemma_complex_ring::<T>();
    let (zero, one) = (Cplx::<T>::nought(), Cplx::<T>::unit());
    let n = system.b.len();
    let r = system.residual(outer.x);
    let beta = complex_euclidean(r);
    let basis = system.restarted(outer);
    assert(beta != T::nought());
    lemma_normalised(r);
    let v0 = multiplied(r, Cplx::on_axis(T::unit().over(beta)));
    assert forall|i: int| 0 <= i < basis.v.len() implies (#[trigger] basis.v[i]).len() == n by {
        assert(outer.basis.v[i].len() == n);
    }
    assert(basis.shaped(n, size));
    let f = frame(basis.v, basis.cs, basis.sn, 0);
    assert(f[0] == v0);
    assert forall|at: int| 0 <= at < n implies #[trigger] r[at] == combination(
        basis.g,
        f,
        1,
        at,
    ) by {
        let term = |i: int| basis.g[i].times(f[i][at]);
        reveal_with_fuel(total, 2);
        assert(total(1, term) == zero.plus(term(0)));
        lemma_ring(term(0), zero, zero);
        assert(Cplx::on_axis(beta).times(v0[at]) == r[at]);
    }
    assert(system.growing(r, outer.aug, basis, 0));
    let start = Sweep { basis, iters: outer.iters, filled: 0, done: false };
    let (count, all) = (system.augmented(outer), system.steps(outer));
    lemma_swept_settles(system, r, outer.aug, start, Some(outer.aug), 0, count, all, size);
    let a = system.phase_a(outer);
    if !a.done {
        if a.filled == count {
            lemma_swept_settles(system, r, outer.aug, a, None, count, all, all, size);
        }
    }
}

/// A cycle makes at least one step, and no more than there is room for.
pub proof fn lemma_cycle_filled<T: Scalar>(system: System<T>, outer: Outer<T>, size: nat)
    requires
        is_real_field::<T>(),
        ready(system, outer, size),
    ensures
        0 < system.both_phases(outer).filled <= size,
{
    lemma_cycle_settles(system, outer, size);
}

/// In exact arithmetic, a cycle makes as many steps as the restart length and the saved directions
/// make up, unless it reaches the iteration limit or the entry of the rotated right-hand side behind
/// those that its steps use, which estimates the residual, comes within the tolerance. Every step
/// counts as one iteration, and every cycle adds one entry to the history.
pub proof fn lemma_cycle_steps<T: Scalar>(system: System<T>, outer: Outer<T>, size: nat)
    requires
        is_real_field::<T>(),
        ready(system, outer, size),
    ensures
        ({
            let sweep = system.both_phases(outer);
            let next = system.cycled(outer);
            &&& next.iters == outer.iters + sweep.filled
            &&& sweep.filled == system.restart + outer.aug.len() || next.iters >= system.max_iter
                || sweep.basis.g[sweep.filled as int].length().at_most(system.tol)
            &&& next.history.len() == outer.history.len() + 1
            &&& next.history.drop_last() == outer.history
        }),
{
    lemma_cycle_settles(system, outer, size);
    let next = system.cycled(outer);
    assert(next.history.drop_last() =~= outer.history);
}

/// A combination of vectors, as a vector.
pub open spec fn combined_vector<E: Field>(
    coefficients: Seq<E>,
    vectors: Seq<Seq<E>>,
    count: nat,
    n: nat,
) -> Seq<E> {
    Seq::new(n, |at: int| combination(coefficients, vectors, count, at))
}

/// An inner product with a combination of vectors.
proof fn lemma_inner_combination<T: Real>(
    a: Seq<Cplx<T>>,
    coefficients: Seq<Cplx<T>>,
    vectors: Seq<Seq<Cplx<T>>>,
    count: nat,
    n: nat,
)
    requires
        is_ring::<T>(),
        a.len() == n,
        of_length(vectors, n, count),
    ensures
        inner_product(a, combined_vector(coefficients, vectors, count, n)) == total(
            count,
            |l: int| coefficients[l].times(inner_product(a, vectors[l])),
        ),
    decreases count,
{
    lemma_complex_ring::<T>();
    let (zero, one) = (Cplx::<T>::nought(), Cplx::<T>::unit());
    let whole = combined_vector(coefficients, vectors, count, n);
    if count == 0 {
        let none = blend(zero, a, zero, a);
        assert forall|at: int| 0 <= at < n implies none[at] == whole[at] by {
            lemma_times_nought(a[at]);
            lemma_ring(zero, zero, zero);
        }
        assert(none =~= whole);
        lemma_inner(a, zero, a, zero, a);
        lemma_times_nought(inner_product(a, a));
        lemma_ring(zero, zero, zero);
    } else {
        let less = (count - 1) as nat;
        lemma_inner_combination(a, coefficients, vectors, less, n);
        let rest = combined_vector(coefficients, vectors, less, n);
        let (c, v) = (coefficients[count - 1], vectors[count - 1]);
        assert(v.len() == n);
        let same = blend(one, rest, c, v);
        assert forall|at: int| 0 <= at < n implies same[at] == whole[at] by {
            lemma_ring(rest[at], one, one);
        }
        assert(same =~= whole);
        lemma_inner(a, one, rest, c, v);
        lemma_ring(inner_product(a, rest), one, one);
    }
}

/// What back substitution leaves of the rotated right-hand side: nothing, except for a last
/// direction whose diagonal entry vanishes, and for the entry behind.
pub open spec fn leftover<T: Scalar>(basis: Basis<T>, p: nat) -> Seq<Cplx<T>> {
    let y = triangular_solution(basis.h, basis.g, p, 0);
    Seq::new(
        p + 1,
        |i: int|
            if i < p {
                basis.g[i].minus(
                    total((p - i) as nat, |m: int| basis.h[i + m][i].times(y[i + m])),
                )
            } else {
                basis.g[p as int]
            },
    )
}

/// The residual less a combination of the images has the leftover as coordinates on the frame.
proof fn lemma_leftover<T: Scalar>(
    system: System<T>,
    r: Seq<Cplx<T>>,
    aug: Seq<Seq<Cplx<T>>>,
    basis: Basis<T>,
    p: nat,
    at: int,
)
    requires
        is_ring::<T>(),
        system.settled(r, aug, basis, p),
        p > 0,
        0 <= at < system.b.len(),
    ensures
        ({
            let y = triangular_solution(basis.h, basis.g, p, 0);
            let images = Seq::new(p, |j: int| system.direction_image(aug, basis, j));
            let f = frame(basis.v, basis.cs, basis.sn, p);
            r[at].minus(combination(y, images, p, at)) == combination(
                leftover(basis, p),
                f,
                p + 1,
                at,
            )
        }),
{
    lemma_complex_ring::<T>();
    let zero = Cplx::<T>::nought();
    let y = triangular_solution(basis.h, basis.g, p, 0);
    let images = Seq::new(p, |j: int| system.direction_image(aug, basis, j));
    let f = frame(basis.v, basis.cs, basis.sn, p);
    let rho = leftover(basis, p);
    let (h, g) = (basis.h, basis.g);
    // The sum over the directions, column by column, is extended to a square of terms.
    let k = |j: int, i: int|
        if i <= j {
            y[j].times(h[j][i].times(f[i][at]))
        } else {
            zero
        };
    let taken = |j: int| y[j].times(images[j][at]);
    let rows = |j: int| total(p, |i: int| k(j, i));
    assert forall|j: int| 0 <= j < p implies #[trigger] taken(j) == rows(j) by {
        assert(system.direction_image(aug, basis, j)[at] == combination(
            h[j],
            f,
            (j + 1) as nat,
            at,
        ));
        let term = |i: int| h[j][i].times(f[i][at]);
        lemma_total_times((j + 1) as nat, y[j], term);
        let row = |i: int| k(j, i);
        lemma_total_same((j + 1) as nat, |i: int| y[j].times(term(i)), row);
        lemma_total_front((j + 1) as nat, (p - j - 1) as nat, row);
    }
    lemma_total_same(p, taken, rows);
    lemma_total_swap(p, p, k);
    // Row by row, the coefficient of an axis is a row of the triangular matrix times the solution.
    let sums = |i: int| total((p - i) as nat, |m: int| h[i + m][i].times(y[i + m]));
    let cols = |i: int| total(p, |j: int| k(j, i));
    let scaled = |i: int| sums(i).times(f[i][at]);
    assert forall|i: int| 0 <= i < p implies #[trigger] cols(i) == scaled(i) by {
        let col = |j: int| k(j, i);
        lemma_total_parts(i as nat, (p - i) as nat, col);
        lemma_total_nought(i as nat, col);
        let tail = |m: int| col(i + m);
        let term = |m: int| h[i + m][i].times(y[i + m]);
        let each = |m: int| term(m).times(f[i][at]);
        assert forall|m: int| 0 <= m < p - i implies #[trigger] tail(m) == each(m) by {
            let (a, b, c) = (y[i + m], h[i + m][i], f[i][at]);
            lemma_ring(a, b, c);
            lemma_ring(b, a, c);
        }
        lemma_total_same((p - i) as nat, tail, each);
        lemma_total_same((p - i) as nat, |m: int| col(i as nat + m), tail);
        lemma_total_times((p - i) as nat, f[i][at], term);
        lemma_ring(total((p - i) as nat, tail), zero, zero);
    }
    lemma_total_same(p, cols, scaled);
    assert(combination(y, images, p, at) == total(p, scaled)) by {
        lemma_total_same(p, |i: int| y[i].times(images[i][at]), taken);
    }
    // What is left and what is taken make up the whole.
    let left = |i: int| rho[i].times(f[i][at]);
    let given = |i: int| g[i].times(f[i][at]);
    lemma_total_plus(p, left, scaled);
    let both = |i: int| left(i).plus(scaled(i));
    assert forall|i: int| 0 <= i < p implies #[trigger] both(i) == given(i) by {
        let (a, s, c) = (g[i], sums(i), f[i][at]);
        assert(rho[i] == a.minus(s));
        lemma_ring(a, s, c);
        lemma_ring(a, s.negated(), s);
        lemma_ring(s.negated(), s, s);
        lemma_ring(s, s, s);
        lemma_ring(a, a, a);
        assert(rho[i].plus(s) == a);
        lemma_ring(c, rho[i], s);
        lemma_ring(rho[i], c, c);
        lemma_ring(s, c, c);
        lemma_ring(a, c, c);
    }
    lemma_total_same(p, both, given);
    assert(r[at] == combination(g, f, p + 1, at));
    let (x, t, last) = (total(p, left), total(p, scaled), g[p as int].times(f[p as int][at]));
    assert(combination(g, f, p + 1, at) == total(p, given).plus(last)) by {
        lemma_total_same(p, |i: int| g[i].times(f[i][at]), given);
    }
    assert(combination(rho, f, p + 1, at) == x.plus(last)) by {
        lemma_total_same(p, |i: int| rho[i].times(f[i][at]), left);
    }
    // ((x + t) + last) − t = x + last
    lemma_ring(x, t, last);
    lemma_ring(t, last, zero);
    lemma_ring(x, last, t);
    lemma_ring(x.plus(last), t, t.negated());
    lemma_ring(t, t, t);
    lemma_ring(x.plus(last), zero, zero);
    lemma_ring(r[at], t, zero);
}

/// Back substitution leaves nothing where the diagonal entry does not vanish.
proof fn lemma_nothing_left<T: Scalar>(basis: Basis<T>, p: nat, i: int)
    requires
        is_real_field::<T>(),
        0 <= i < p,
        basis.h[i][i] != Cplx::<T>::nought(),
    ensures
        leftover(basis, p)[i] == Cplx::<T>::nought(),
{
    lemma_complex_ring::<T>();
    let d = basis.h[i][i];
    let y = triangular_solution(basis.h, basis.g, p, 0);
    lemma_length(d);
    assert forall|z: Cplx<T>| #[trigger] z.over(d).times(d) == z by {
        lemma_quotient(z, d);
    }
    lemma_back_substitution(basis.h, basis.g, p, i);
    lemma_total_same(
        (p - i) as nat,
        |m: int| basis.h[i + m][i].times(triangular_solution(basis.h, basis.g, p, 0)[i + m]),
        |m: int| basis.h[i + m][i].times(y[i + m]),
    );
    lemma_ring(basis.g[i], basis.g[i], basis.g[i]);
}

/// A vector with the leftover as coordinates is orthogonal to the images of all directions.
proof fn lemma_leftover_orthogonal<T: Scalar>(
    system: System<T>,
    r: Seq<Cplx<T>>,
    aug: Seq<Seq<Cplx<T>>>,
    basis: Basis<T>,
    p: nat,
    rest: Seq<Cplx<T>>,
    j: int,
)
    requires
        is_real_field::<T>(),
        system.settled(r, aug, basis, p),
        0 <= j < p,
        system.direction_image(aug, basis, j).len() == system.b.len(),
        rest == combined_vector(
            leftover(basis, p),
            frame(basis.v, basis.cs, basis.sn, p),
            p + 1,
            system.b.len(),
        ),
    ensures
        inner_product(system.direction_image(aug, basis, j), rest) == Cplx::<T>::nought(),
        inner_product(rest, system.direction_image(aug, basis, j)) == Cplx::<T>::nought(),
{
    lemma_complex_ring::<T>();
    let zero = Cplx::<T>::nought();
    let n = system.b.len();
    let f = frame(basis.v, basis.cs, basis.sn, p);
    let rho = leftover(basis, p);
    let image = system.direction_image(aug, basis, j);
    let count = (j + 1) as nat;
    let whole = combined_vector(basis.h[j], f, count, n);
    assert forall|at: int| 0 <= at < n implies image[at] == whole[at] by {}
    assert(image =~= whole);
    assert(of_length(f, n, count));
    lemma_inner_combination(rest, basis.h[j], f, count, n);
    let term = |i: int| basis.h[j][i].times(inner_product(rest, f[i]));
    assert forall|i: int| 0 <= i < count implies #[trigger] term(i) == zero by {
        assert(f[i].len() == n);
        lemma_inner_combination(f[i], rho, f, p + 1, n);
        let part = |l: int| rho[l].times(inner_product(f[i], f[l]));
        lemma_conjugate(zero, zero);
        lemma_inner(f[i], zero, rest, zero, rest);
        if basis.h[i][i] != zero {
            lemma_nothing_left(basis, p, i);
            assert forall|l: int| 0 <= l < p + 1 implies #[trigger] part(l) == zero by {
                assert(f[l].len() == n);
                if l < i {
                    assert(inner_product(f[l], f[i]) == zero);
                    lemma_inner(f[l], zero, f[i], zero, f[i]);
                } else if i < l {
                    assert(inner_product(f[i], f[l]) == zero);
                }
                lemma_times_nought(rho[l]);
                lemma_times_nought(inner_product(f[i], f[l]));
            }
            lemma_total_nought(p + 1, part);
            lemma_times_nought(basis.h[j][i]);
        } else {
            assert(i == p - 1);
            lemma_times_nought(inner_product(rest, f[i]));
        }
    }
    lemma_total_nought(count, term);
    lemma_inner(rest, zero, image, zero, image);
    lemma_conjugate(zero, zero);
}

/// The preconditioned directions of a cycle.
pub open spec fn directions<T: Scalar>(system: System<T>, outer: Outer<T>) -> Seq<Seq<Cplx<T>>> {
    let sweep = system.both_phases(outer);
    Seq::new(
        sweep.filled,
        |j: int| system.preconditioned_direction(outer.aug, sweep.basis, j),
    )
}

/// The directions have the right length, and the residual after the cycle has the leftover as
/// coordinates on a frame.
proof fn lemma_cycle_leftover<T: Scalar>(system: System<T>, outer: Outer<T>, size: nat) -> (u: Seq<
    Cplx<T>,
>)
    requires
        is_real_field::<T>(),
        ready(system, outer, size),
    ensures
        ({
            let n = system.b.len();
            let sweep = system.both_phases(outer);
            let (r, p) = (system.residual(outer.x), sweep.filled);
            let basis = completed(sweep.basis, p, u);
            let f = frame(basis.v, basis.cs, basis.sn, p);
            &&& 0 < p <= size
            &&& system.settled(r, outer.aug, basis, p)
            &&& of_length(directions(system, outer), n, p)
            &&& forall|j: int|
                0 <= j < p ==> #[trigger] system.direction_image(outer.aug, basis, j) == (
                system.image)(directions(system, outer)[j])
            &&& system.residual(system.cycled(outer).x) == combined_vector(
                leftover(basis, p),
                f,
                p + 1,
                n,
            )
        }),
{
    lemma_complex_ring::<T>();
    let n = system.b.len();
    let sweep = system.both_phases(outer);
    let (r, p) = (system.residual(outer.x), sweep.filled);
    lemma_cycle_settles(system, outer, size);
    let u = choose|u: Seq<Cplx<T>>|
        system.settled(r, outer.aug, #[trigger] completed(sweep.basis, p, u), p);
    let basis = completed(sweep.basis, p, u);
    let f = frame(basis.v, basis.cs, basis.sn, p);
    let parts = directions(system, outer);
    assert forall|j: int| 0 <= j < p implies (#[trigger] parts[j]).len() == n by {
        assert(sweep.basis.v[j].len() == n);
        if j < outer.aug.len() {
            assert(outer.aug[j].len() == n);
        }
    }
    assert forall|j: int| 0 <= j < p implies #[trigger] system.direction_image(
        outer.aug,
        basis,
        j,
    ) == (system.image)(parts[j]) by {}
    let after = system.residual(system.cycled(outer).x);
    let whole = combined_vector(leftover(basis, p), f, p + 1, n);
    let y = triangular_solution(basis.h, basis.g, p, 0);
    let images = Seq::new(p, |j: int| system.direction_image(outer.aug, basis, j));
    assert((system.image)(outer.x).len() == n);
    assert forall|at: int| 0 <= at < n implies after[at] == whole[at] by {
        assert forall|j: int| 0 <= j < p implies (#[trigger] system.preconditioned_direction(
            outer.aug,
            sweep.basis,
            j,
        )).len() == n by {
            assert(parts[j].len() == n);
        }
        lemma_cycle_residual(system, outer, at);
        let plain = Seq::new(
            p,
            |j: int| (system.image)(system.preconditioned_direction(outer.aug, sweep.basis, j)),
        );
        assert(plain =~= images);
        lemma_accumulate_total(n, y, images, p, at);
        lemma_leftover(system, r, outer.aug, basis, p, at);
    }
    assert(after =~= whole);
    u
}

/// In exact arithmetic, a cycle searches the Krylov space of the preconditioned operator. Its
/// directions are the saved ones and then the basis vectors, all preconditioned. The image of
/// direction `j` is a combination of the first `j + 2` basis vectors, and one in which the last of
/// them has a part, unless `j` is the last direction.
pub proof fn lemma_krylov_space<T: Scalar>(
    system: System<T>,
    outer: Outer<T>,
    size: nat,
    j: int,
) -> (c: Seq<Cplx<T>>)
    requires
        is_real_field::<T>(),
        ready(system, outer, size),
        0 <= j,
        j + 1 < system.both_phases(outer).filled,
    ensures
        ({
            let v = system.both_phases(outer).basis.v;
            let z = directions(system, outer)[j];
            &&& z == (system.correction)(
                if j < outer.aug.len() {
                    outer.aug[j]
                } else {
                    v[j]
                },
            )
            &&& c.len() == j + 2
            &&& c[j + 1] != Cplx::<T>::nought()
            &&& forall|at: int|
                0 <= at < system.b.len() ==> #[trigger] (system.image)(z)[at] == combination(
                    c,
                    v,
                    (j + 2) as nat,
                    at,
                )
        }),
{
    let u = lemma_cycle_leftover(system, outer, size);
    lemma_cycle_settles(system, outer, size);
    let sweep = system.both_phases(outer);
    let p = sweep.filled;
    let basis = completed(sweep.basis, p, u);
    let z = directions(system, outer)[j];
    let w = system.direction_image(outer.aug, basis, j);
    let c = coordinates(basis.v, w, j as nat);
    assert(w == (system.image)(z));
    assert(system.spanned(outer.aug, basis, j));
    assert(system.left_over(outer.aug, basis, j) != T::nought());
    assert forall|at: int| 0 <= at < system.b.len() implies #[trigger] (system.image)(z)[at]
        == combination(c, sweep.basis.v, (j + 2) as nat, at) by {
        assert(w[at] == combination(c, basis.v, (j + 2) as nat, at));
        lemma_total_same(
            (j + 2) as nat,
            |i: int| c[i].times(basis.v[i][at]),
            |i: int| c[i].times(sweep.basis.v[i][at]),
        );
    }
    c
}

/// In exact arithmetic, the residual that a cycle leaves is orthogonal to the image of each of its
/// directions.
pub proof fn lemma_residual_orthogonal<T: Scalar>(
    system: System<T>,
    outer: Outer<T>,
    size: nat,
    j: int,
)
    requires
        is_real_field::<T>(),
        ready(system, outer, size),
        0 <= j < system.both_phases(outer).filled,
    ensures
        inner_product(
            (system.image)(directions(system, outer)[j]),
            system.residual(system.cycled(outer).x),
        ) == Cplx::<T>::nought(),
{
    let u = lemma_cycle_leftover(system, outer, size);
    let sweep = system.both_phases(outer);
    let p = sweep.filled;
    let basis = completed(sweep.basis, p, u);
    let after = system.residual(system.cycled(outer).x);
    assert(system.direction_image(outer.aug, basis, j) == (system.image)(
        directions(system, outer)[j],
    ));
    assert(directions(system, outer)[j].len() == system.b.len());
    lemma_leftover_orthogonal(
        system,
        system.residual(outer.x),
        outer.aug,
        basis,
        p,
        after,
        j,
    );
}

/// In exact arithmetic, a cycle minimises the residual: no other update along its directions leaves
/// a residual with a smaller norm.
pub proof fn lemma_residual_minimal<T: Scalar>(
    system: System<T>,
    outer: Outer<T>,
    size: nat,
    other: Seq<Cplx<T>>,
)
    requires
        is_real_field::<T>(),
        ready(system, outer, size),
    ensures
        ({
            let dx = accumulate(
                zero_vector::<Cplx<T>>(system.b.len()),
                other,
                directions(system, outer),
                system.both_phases(outer).filled,
            );
            complex_euclidean(system.residual(system.cycled(outer).x)).at_most(
                complex_euclidean(system.residual(shifted(outer.x, dx))),
            )
        }),
{
    lemma_complex_ring::<T>();
    let (zero, one) = (Cplx::<T>::nought(), Cplx::<T>::unit());
    let u = lemma_cycle_leftover(system, outer, size);
    let n = system.b.len();
    let sweep = system.both_phases(outer);
    let p = sweep.filled;
    let parts = directions(system, outer);
    let images = Seq::new(p, |j: int| (system.image)(parts[j]));
    let y = triangular_solution(sweep.basis.h, sweep.basis.g, p, 0);
    let dx = accumulate(zero_vector::<Cplx<T>>(n), other, parts, p);
    let after = system.residual(system.cycled(outer).x);
    let rival = system.residual(shifted(outer.x, dx));
    let r = system.residual(outer.x);
    assert((system.image)(outer.x).len() == n);
    assert forall|j: int| 0 <= j < p implies (#[trigger] images[j]).len() == n by {
        assert(parts[j].len() == n);
    }
    // The two residuals differ by a combination of the images.
    let delta = Seq::new(p, |j: int| y[j].minus(other[j]));
    let apart = combined_vector(delta, images, p, n);
    let same = blend(one, after, one, apart);
    assert forall|at: int| 0 <= at < n implies same[at] == rival[at] by {
        assert forall|j: int| 0 <= j < p implies (#[trigger] parts[j]).len() == n && images[j] == (
        system.image)(parts[j]) by {}
        assert forall|j: int| 0 <= j < p implies (#[trigger] system.preconditioned_direction(
            outer.aug,
            sweep.basis,
            j,
        )).len() == n by {
            assert(parts[j].len() == n);
        }
        lemma_shifted_residual(system, outer.x, other, parts, images, p, at);
        lemma_cycle_residual(system, outer, at);
        let plain = Seq::new(
            p,
            |j: int| (system.image)(system.preconditioned_direction(outer.aug, sweep.basis, j)),
        );
        assert(plain =~= images);
        lemma_accumulate_total(n, other, images, p, at);
        lemma_accumulate_total(n, y, images, p, at);
        let (a, b) = (combination(other, images, p, at), combination(y, images, p, at));
        // delta and other make up y
        let (fo, fd, fy) = (
            |j: int| other[j].times(images[j][at]),
            |j: int| delta[j].times(images[j][at]),
            |j: int| y[j].times(images[j][at]),
        );
        lemma_total_plus(p, fd, fo);
        let sum = |j: int| fd(j).plus(fo(j));
        assert forall|j: int| 0 <= j < p implies #[trigger] sum(j) == fy(j) by {
            let (yj, oj, c) = (y[j], other[j], images[j][at]);
            lemma_ring(yj, oj, c);
            lemma_ring(yj, oj.negated(), oj);
            lemma_ring(oj.negated(), oj, oj);
            lemma_ring(oj, oj, oj);
            lemma_ring(yj, yj, yj);
            lemma_ring(c, delta[j], oj);
            lemma_ring(delta[j], c, c);
            lemma_ring(oj, c, c);
            lemma_ring(yj, c, c);
        }
        lemma_total_same(p, sum, fy);
        lemma_total_same(p, |i: int| other[i].times(images[i][at]), fo);
        lemma_total_same(p, |i: int| y[i].times(images[i][at]), fy);
        lemma_total_same(p, |i: int| delta[i].times(images[i][at]), fd);
        let d = apart[at];
        assert(d.plus(a) == b);
        // (r − (d + a)) + d = r − a
        let x = r[at];
        lemma_ring(x, b, zero);
        lemma_ring(x, a, zero);
        lemma_negative_sum(d, a);
        lemma_ring(d.negated(), a.negated(), zero);
        lemma_ring(x, a.negated(), d.negated());
        lemma_ring(x.plus(a.negated()), d.negated(), d);
        lemma_ring(d.negated(), d, zero);
        lemma_ring(d, d, zero);
        lemma_ring(x.plus(a.negated()), zero, zero);
        lemma_ring(after[at], one, one);
        lemma_ring(d, one, one);
    }
    assert(same =~= rival);
    // That combination is orthogonal to the residual, so the squares add up.
    lemma_inner_combination(after, delta, images, p, n);
    let term = |l: int| delta[l].times(inner_product(after, images[l]));
    assert forall|l: int| 0 <= l < p implies #[trigger] term(l) == zero by {
        lemma_residual_orthogonal(system, outer, size, l);
        assert(images[l].len() == n);
        lemma_inner(images[l], zero, after, zero, after);
        lemma_conjugate(zero, zero);
        lemma_times_nought(delta[l]);
    }
    lemma_total_nought(p, term);
    let across = inner_product(after, apart);
    assert(across == zero);
    lemma_conjugate(zero, zero);
    lemma_conjugate(one, one);
    lemma_axis(T::unit(), T::unit());
    lemma_inner(after, one, after, one, apart);
    lemma_inner(apart, one, after, one, apart);
    lemma_inner(rival, one, after, one, apart);
    let (sa, sd) = (inner_product(after, after), inner_product(apart, apart));
    lemma_ring(sa, one, zero);
    lemma_ring(sd, one, zero);
    lemma_ring(sa, zero, zero);
    lemma_ring(sd, zero, zero);
    lemma_ring(zero, one, zero);
    assert(inner_product(after, rival) == sa);
    assert(inner_product(apart, rival) == sd);
    lemma_ring(inner_product(after, rival), one, zero);
    lemma_ring(inner_product(apart, rival), one, zero);
    assert(inner_product(rival, rival) == sa.plus(sd));
    lemma_inner_self(after, n);
    lemma_inner_self(apart, n);
    lemma_inner_self(rival, n);
    let (qa, qd) = (square_sum(after, n), square_sum(apart, n));
    lemma_axis(qa, qd);
    assert(square_sum(rival, n) == qa.plus(qd));
    assert(real_laws(qa, qd));
}

/// In exact arithmetic, no cycle increases the norm of the residual.
pub proof fn lemma_residual_never_grows<T: Scalar>(system: System<T>, outer: Outer<T>, size: nat)
    requires
        is_real_field::<T>(),
        ready(system, outer, size),
    ensures
        complex_euclidean(system.residual(system.cycled(outer).x)).at_most(
            complex_euclidean(system.residual(outer.x)),
        ),
{
    lemma_complex_ring::<T>();
    let zero = Cplx::<T>::nought();
    let n = system.b.len();
    let p = system.both_phases(outer).filled;
    let parts = directions(system, outer);
    let none = zero_vector::<Cplx<T>>(p);
    lemma_residual_minimal(system, outer, size, none);
    let dx = accumulate(zero_vector::<Cplx<T>>(n), none, parts, p);
    assert forall|at: int| 0 <= at < n implies shifted(outer.x, dx)[at] == outer.x[at] by {
        lemma_accumulate_total(n, none, parts, p, at);
        let term = |a: int| none[a].times(parts[a][at]);
        assert forall|a: int| 0 <= a < p implies #[trigger] term(a) == zero by {
            lemma_times_nought(parts[a][at]);
        }
        lemma_total_nought(p, term);
        lemma_ring(outer.x[at], zero, zero);
    }
    assert(shifted(outer.x, dx) =~= outer.x);
}

/// A solve starts with a state that fits.
pub proof fn lemma_start_fits<T: Scalar>(system: System<T>, x: Seq<Cplx<T>>)
    requires
        keeps_length(system),
        acts_linearly(system.image, system.b.len()),
        system.restart >= 1,
        T::nought().at_most(system.tol),
        x.len() == system.b.len(),
    ensures
        fits(
            system,
            fresh_start(x, system.restart, system.aug_dim),
            system.restart + system.aug_dim,
        ),
{
}

/// In exact arithmetic, every cycle leaves a state that fits, so that the laws of a cycle hold of
/// each cycle of a solve.
pub proof fn lemma_cycle_fits<T: Scalar>(system: System<T>, outer: Outer<T>, size: nat)
    requires
        is_real_field::<T>(),
        ready(system, outer, size),
    ensures
        fits(system, system.cycled(outer), size),
{
    let n = system.b.len();
    let sweep = system.both_phases(outer);
    lemma_cycle_settles(system, outer, size);
    let parts = directions(system, outer);
    let y = triangular_solution(sweep.basis.h, sweep.basis.g, sweep.filled, 0);
    lemma_accumulate_length(zero_vector::<Cplx<T>>(n), y, parts, sweep.filled);
    let next = system.cycled(outer);
    assert(parts =~= Seq::new(
        sweep.filled,
        |j: int| system.preconditioned_direction(outer.aug, sweep.basis, j),
    ));
    let dx = system.increment(outer.aug, sweep.basis, sweep.filled);
    assert(dx.len() == n);
    assert forall|i: int| 0 <= i < next.aug.len() implies (#[trigger] next.aug[i]).len() == n by {
        if i < outer.aug.len() {
            assert(outer.aug[i].len() == n);
        }
        if i + 1 < outer.aug.len() {
            assert(outer.aug[i + 1].len() == n);
        }
    }
}

/// In exact arithmetic, a solve never worsens its starting point: the `x` with which it ends has a
/// residual whose norm is at most that of the `x` with which it starts.
pub proof fn lemma_solve_never_worsens<T: Scalar>(system: System<T>, outer: Outer<T>, size: nat)
    requires
        is_real_field::<T>(),
        fits(system, outer, size),
    ensures
        ({
            let last = match system.solved(outer) {
                Ending::Checked { outer: last, .. } => last,
                Ending::Exhausted { outer: last } => last,
            };
            complex_euclidean(system.residual(last.x)).at_most(
                complex_euclidean(system.residual(outer.x)),
            )
        }),
    decreases system.max_iter - outer.iters,
{
    let beta = complex_euclidean(system.residual(outer.x));
    assert(order_laws(beta, beta, beta));
    if !(beta.at_most(system.tol) || outer.iters >= system.max_iter) {
        let next = system.cycled(outer);
        lemma_residual_never_grows(system, outer, size);
        if next.iters < system.max_iter {
            system.lemma_progress(outer);
            lemma_cycle_fits(system, outer, size);
            lemma_solve_never_worsens(system, next, size);
            let last = match system.solved(next) {
                Ending::Checked { outer: last, .. } => last,
                Ending::Exhausted { outer: last } => last,
            };
            assert(order_laws(
                complex_euclidean(system.residual(last.x)),
                complex_euclidean(system.residual(next.x)),
                beta,
            ));
        }
    }
}

/// In exact arithmetic, the entry of the rotated right-hand side behind those that the update uses
/// has the length of the residual after the cycle, unless the last direction gives nothing new.
pub proof fn lemma_residual_estimate<T: Scalar>(system: System<T>, outer: Outer<T>, size: nat)
    requires
        is_real_field::<T>(),
        ready(system, outer, size),
        ({
            let sweep = system.both_phases(outer);
            sweep.basis.h[sweep.filled - 1][sweep.filled - 1] != Cplx::<T>::nought()
        }),
    ensures
        ({
            let sweep = system.both_phases(outer);
            complex_euclidean(system.residual(system.cycled(outer).x))
                == sweep.basis.g[sweep.filled as int].length()
        }),
{
    lemma_complex_ring::<T>();
    let (zero, one) = (Cplx::<T>::nought(), Cplx::<T>::unit());
    let u = lemma_cycle_leftover(system, outer, size);
    let n = system.b.len();
    let sweep = system.both_phases(outer);
    let p = sweep.filled;
    let basis = completed(sweep.basis, p, u);
    let f = frame(basis.v, basis.cs, basis.sn, p);
    let rho = leftover(basis, p);
    let after = system.residual(system.cycled(outer).x);
    let (g, t) = (basis.g[p as int], f[p as int]);
    assert(t.len() == n);
    // Only the leading vector is left.
    let same = blend(g, t, zero, t);
    assert forall|at: int| 0 <= at < n implies same[at] == after[at] by {
        let term = |i: int| rho[i].times(f[i][at]);
        assert forall|i: int| 0 <= i < p implies #[trigger] term(i) == zero by {
            assert(basis.h[i][i] != zero) by {
                if i < p - 1 {
                    assert(basis.h[i][i] != zero);
                }
            }
            lemma_nothing_left(basis, p, i);
            lemma_times_nought(f[i][at]);
        }
        lemma_total_nought(p, term);
        lemma_total_same(p + 1, |i: int| rho[i].times(f[i][at]), term);
        lemma_ring(g.times(t[at]), zero, zero);
        lemma_times_nought(t[at]);
    }
    assert(same =~= after);
    lemma_inner(t, g, t, zero, t);
    lemma_inner(after, g, t, zero, t);
    let tt = inner_product(t, t);
    let ta = inner_product(t, after);
    lemma_times_nought(tt);
    lemma_times_nought(ta);
    lemma_conjugate(zero, zero);
    lemma_ring(g.times(tt), zero, zero);
    lemma_ring(g.conjugate().times(ta), zero, zero);
    assert(inner_product(after, after) == g.conjugate().times(g.times(tt)));
    lemma_ring(g, one, one);
    lemma_times_nought(g.conjugate());
    lemma_times_nought(tt);
    lemma_square_norm(g);
    lemma_square_norm_positive(g);
    lemma_inner_self(after, n);
    let square = square_sum(after, n);
    assert(square == g.square_norm());
    lemma_length(g);
    assert(real_laws(square, square));
    lemma_same_root(square.root(), g.length());
}

/// In exact arithmetic, the length that a cycle records is that of the component of its starting
/// residual along what its last direction adds: along a vector `q` of norm one that is orthogonal to
/// the images of the directions before the last, and to which the new residual is orthogonal too,
/// unless the last direction gives nothing new.
pub proof fn lemma_recorded_length<T: Scalar>(
    system: System<T>,
    outer: Outer<T>,
    size: nat,
) -> (q: Seq<Cplx<T>>)
    requires
        is_real_field::<T>(),
        ready(system, outer, size),
    ensures
        ({
            let sweep = system.both_phases(outer);
            let next = system.cycled(outer);
            let last = sweep.filled - 1;
            &&& q.len() == system.b.len()
            &&& inner_product(q, q) == Cplx::<T>::unit()
            &&& forall|j: int|
                0 <= j < last ==> inner_product(
                    q,
                    (system.image)(#[trigger] directions(system, outer)[j]),
                ) == Cplx::<T>::nought()
            &&& sweep.basis.h[last][last] != Cplx::<T>::nought() ==> inner_product(
                q,
                system.residual(next.x),
            ) == Cplx::<T>::nought()
            &&& next.history.last() == wide_or(
                inner_product(q, system.residual(outer.x)).length(),
                T::Wide::nought(),
            )
        }),
{
    lemma_complex_ring::<T>();
    let zero = Cplx::<T>::nought();
    let one = Cplx::<T>::unit();
    let u = lemma_cycle_leftover(system, outer, size);
    let n = system.b.len();
    let sweep = system.both_phases(outer);
    let p = sweep.filled;
    let basis = completed(sweep.basis, p, u);
    let f = frame(basis.v, basis.cs, basis.sn, p);
    let q = f[p - 1];
    let r = system.residual(outer.x);
    assert(q.len() == n);
    assert(inner_product(f[p - 1], f[p - 1]) == one);
    lemma_conjugate(zero, zero);
    // The starting residual.
    let whole = combined_vector(basis.g, f, p + 1, n);
    assert forall|at: int| 0 <= at < n implies r[at] == whole[at] by {}
    assert(r =~= whole);
    lemma_along_frame(basis.g, f, p + 1, n, p - 1);
    lemma_ring(basis.g[p - 1], one, one);
    assert(inner_product(q, r) == basis.g[p - 1]);
    // The images of the directions before the last.
    assert forall|j: int| 0 <= j < p - 1 implies inner_product(
        q,
        (system.image)(#[trigger] directions(system, outer)[j]),
    ) == zero by {
        let image = system.direction_image(outer.aug, basis, j);
        assert(image == (system.image)(directions(system, outer)[j]));
        assert(directions(system, outer)[j].len() == n);
        let count = (j + 1) as nat;
        let part = combined_vector(basis.h[j], f, count, n);
        assert forall|at: int| 0 <= at < n implies image[at] == part[at] by {}
        assert(image =~= part);
        lemma_inner_combination(q, basis.h[j], f, count, n);
        let term = |i: int| basis.h[j][i].times(inner_product(q, f[i]));
        assert forall|i: int| 0 <= i < count implies #[trigger] term(i) == zero by {
            assert(f[i].len() == n);
            assert(inner_product(f[i], f[p - 1]) == zero);
            lemma_inner(f[i], zero, q, zero, q);
            lemma_times_nought(basis.h[j][i]);
        }
        lemma_total_nought(count, term);
    }
    // The new residual.
    if sweep.basis.h[p - 1][p - 1] != zero {
        let rho = leftover(basis, p);
        lemma_along_frame(rho, f, p + 1, n, p - 1);
        lemma_nothing_left(basis, p, p - 1);
        lemma_times_nought(one);
    }
    q
}

/// The inner product of a vector of a frame with a combination of all of them.
proof fn lemma_along_frame<T: Real>(
    c: Seq<Cplx<T>>,
    f: Seq<Seq<Cplx<T>>>,
    count: nat,
    n: nat,
    i: int,
)
    requires
        is_ring::<T>(),
        f.len() == count,
        of_length(f, n, count),
        orthogonal(f),
        0 <= i < count,
    ensures
        inner_product(f[i], combined_vector(c, f, count, n)) == c[i].times(
            inner_product(f[i], f[i]),
        ),
{
    lemma_complex_ring::<T>();
    assert(f[i].len() == n);
    lemma_inner_combination(f[i], c, f, count, n);
    let term = |l: int| c[l].times(inner_product(f[i], f[l]));
    assert forall|l: int| 0 <= l < count && l != i implies #[trigger] term(l) == Cplx::<
        T,
    >::nought() by {
        assert(f[l].len() == n);
        if l < i {
            assert(inner_product(f[l], f[i]) == Cplx::<T>::nought());
            lemma_inner(f[l], c[l], f[i], c[l], f[i]);
            lemma_conjugate(Cplx::<T>::nought(), Cplx::<T>::nought());
        } else {
            assert(inner_product(f[i], f[l]) == Cplx::<T>::nought());
        }
        lemma_times_nought(c[l]);
    }
    lemma_total_only(count, term, i);
}

/// A sum with one term other than zero.
proof fn lemma_total_only<E: Field>(n: nat, f: spec_fn(int) -> E, i: int)
    requires
        is_ring::<E>(),
        0 <= i,
        forall|l: int| 0 <= l < n && l != i ==> #[trigger] f(l) == E::nought(),
    ensures
        total(n, f) == (if i < n {
            f(i)
        } else {
            E::nought()
        }),
    decreases n,
{
    if n > 0 {
        lemma_total_only((n - 1) as nat, f, i);
        let zero = E::nought();
        lemma_ring(zero, zero, zero);
        lemma_ring(f(n - 1), zero, zero);
        if n - 1 != i {
            assert(f(n - 1) == zero);
            lemma_ring(total((n - 1) as nat, f), zero, zero);
        }
    }
}

/// Numbers that are not negative and have the same square are the same.
proof fn lemma_same_root<T: Real>(a: T, b: T)
    requires
        is_real_field::<T>(),
        T::nought().at_most(a),
        T::nought().at_most(b),
        a.times(a) == b.times(b),
    ensures
        a == b,
{
    let zero = T::nought();
    let d = a.minus(b);
    // (a − b)·(a + b) = a² − b² = 0
    lemma_ring(a, b, a);
    lemma_ring(b, a, b);
    let (aa, ab) = (a.times(a), a.times(b));
    let sum = a.plus(b);
    lemma_ring(sum, a, b.negated());
    lemma_ring(d, sum, a);
    lemma_ring(a, sum, a);
    lemma_ring(a, a, b);
    lemma_ring(sum, a, a);
    lemma_times_negative(sum, b);
    lemma_ring(b, a, b);
    lemma_ring(sum, b, b);
    lemma_ring(ab, aa, ab);
    lemma_ring(aa, ab, ab);
    lemma_ring(aa.plus(ab), zero, zero);
    assert(sum.times(d) == zero);
    if d == zero {
        lemma_ring(a, b.negated(), b);
        lemma_ring(b.negated(), b, b);
        lemma_ring(b, b, b);
        lemma_ring(a, a, a);
        lemma_ring(b, zero, zero);
    } else {
        let q = T::unit().over(d);
        assert(real_laws(T::unit(), d));
        lemma_ring(sum, d, q);
        lemma_ring(d, q, q);
        lemma_ring(sum, sum, sum);
        lemma_times_nought(q);
        assert(sum == zero);
        assert(real_laws(a, b));
    }
}

} // verus!
