//! What the steps of LGMRES compute, in exact arithmetic.
use super::complex_lgmres::{
    component, orthogonalised, reduced, triangular_solution, Outer, System,
};
use crate::complex::Cplx;
use crate::eigen::block::accumulate;
use crate::eigen::invariants::{acts_linearly, image_pairs, lemma_accumulate_related};
use crate::exact::{
    is_ring, lemma_negative_sum, lemma_plus_plus, lemma_ring, lemma_times_negative,
    lemma_total_parts, lemma_total_same, total,
};
use crate::scalar::{Field, Real, Scalar};
use crate::vector::{plus_multiple, zero_vector};
use vstd::prelude::*;

verus! {

/// In exact arithmetic a vector is what is left of it after orthogonalisation, plus its
/// components along the basis vectors.
pub proof fn lemma_orthogonalisation<T: Scalar>(
    v: Seq<Seq<Cplx<T>>>,
    w: Seq<Cplx<T>>,
    count: nat,
    at: int,
)
    requires
        is_ring::<Cplx<T>>(),
        0 <= at < w.len(),
    ensures
        orthogonalised(v, w, count).len() == w.len(),
        w[at] == orthogonalised(v, w, count)[at].plus(
            total(count, |i: int| component(v, w, i).times(v[i][at])),
        ),
    decreases count,
{
    let part = |i: int| component(v, w, i).times(v[i][at]);
    if count == 0 {
        lemma_ring(w[at], w[at], w[at]);
    } else {
        let less = (count - 1) as nat;
        lemma_orthogonalisation(v, w, less, at);
        let rest = orthogonalised(v, w, less);
        let h = component(v, w, count - 1);
        let last = h.times(v[count - 1][at]);
        assert(part(count - 1) == last);
        lemma_times_negative(h, v[count - 1][at]);
        assert(orthogonalised(v, w, count)[at] == rest[at].plus(last.negated()));
        // (rest − last) + (sum + last) = rest + sum
        let sum = total(less, part);
        lemma_plus_plus(rest[at], last.negated(), sum, last);
        lemma_ring(last.negated(), last, last);
        lemma_ring(last, last, last);
        lemma_ring(rest[at].plus(sum), rest[at], rest[at]);
    }
}

/// Unknown `k` does not change once it is found.
proof fn lemma_unknown_stays<T: Scalar>(
    h: Seq<Seq<Cplx<T>>>,
    g: Seq<Cplx<T>>,
    size: nat,
    j: nat,
    k: nat,
)
    requires
        j <= k < size,
    ensures
        triangular_solution(h, g, size, j).len() == size,
        triangular_solution(h, g, size, j)[k as int] == triangular_solution(h, g, size, k)[k as int],
    decreases size - j,
{
    lemma_solution_length(h, g, size, j);
    if j < k {
        lemma_unknown_stays(h, g, size, j + 1, k);
        lemma_solution_length(h, g, size, j + 1);
    }
}

proof fn lemma_solution_length<T: Scalar>(
    h: Seq<Seq<Cplx<T>>>,
    g: Seq<Cplx<T>>,
    size: nat,
    j: nat,
)
    ensures
        triangular_solution(h, g, size, j).len() == size,
    decreases size - j,
{
    if j < size {
        lemma_solution_length(h, g, size, j + 1);
    }
}

/// What is left of an entry of the right-hand side, plus what was taken from it.
proof fn lemma_reduced<T: Scalar>(
    h: Seq<Seq<Cplx<T>>>,
    g: Seq<Cplx<T>>,
    y: Seq<Cplx<T>>,
    i: int,
    l: int,
)
    requires
        is_ring::<Cplx<T>>(),
        i + 1 <= l,
    ensures
        reduced(h, g, y, i, l).plus(
            total((l - i - 1) as nat, |m: int| h[i + 1 + m][i].times(y[i + 1 + m])),
        ) == g[i],
    decreases l - i,
{
    let term = |m: int| h[i + 1 + m][i].times(y[i + 1 + m]);
    if l == i + 1 {
        lemma_ring(g[i], g[i], g[i]);
    } else {
        lemma_reduced(h, g, y, i, l - 1);
        let less = (l - i - 2) as nat;
        let before = reduced(h, g, y, i, l - 1);
        let last = h[l - 1][i].times(y[l - 1]);
        assert(term(less as int) == last);
        let sum = total(less, term);
        // (before − last) + (sum + last) = before + sum
        lemma_ring(before, last, last);
        lemma_plus_plus(before, last.negated(), sum, last);
        lemma_ring(last.negated(), last, last);
        lemma_ring(last, last, last);
        lemma_ring(before.plus(sum), before, before);
    }
}

/// Only the unknowns after `i` are taken from entry `i`.
proof fn lemma_reduced_same<T: Scalar>(
    h: Seq<Seq<Cplx<T>>>,
    g: Seq<Cplx<T>>,
    y: Seq<Cplx<T>>,
    z: Seq<Cplx<T>>,
    i: int,
    l: int,
)
    requires
        forall|k: int| i < k < l ==> #[trigger] y[k] == z[k],
    ensures
        reduced(h, g, y, i, l) == reduced(h, g, z, i, l),
    decreases l - i,
{
    if l > i + 1 {
        lemma_reduced_same(h, g, y, z, i, l - 1);
        assert(y[l - 1] == z[l - 1]);
    }
}

/// In exact arithmetic back substitution solves the triangular system: where the diagonal entries
/// are large enough to divide by, every row of the matrix times the solution is the right-hand
/// side.
pub proof fn lemma_back_substitution<T: Scalar>(
    h: Seq<Seq<Cplx<T>>>,
    g: Seq<Cplx<T>>,
    size: nat,
    i: int,
)
    requires
        is_ring::<Cplx<T>>(),
        0 <= i < size,
        T::resolution().less(h[i][i].length()),
        forall|z: Cplx<T>| #[trigger] z.over(h[i][i]).times(h[i][i]) == z,
    ensures
        total(
            (size - i) as nat,
            |m: int| h[i + m][i].times(triangular_solution(h, g, size, 0)[i + m]),
        ) == g[i],
{
    let y = triangular_solution(h, g, size, 0);
    let later = triangular_solution(h, g, size, (i + 1) as nat);
    assert forall|k: int| i < k < size implies #[trigger] y[k] == later[k] by {
        lemma_unknown_stays(h, g, size, 0, k as nat);
        lemma_unknown_stays(h, g, size, (i + 1) as nat, k as nat);
    }
    lemma_unknown_stays(h, g, size, 0, i as nat);
    lemma_solution_length(h, g, size, (i + 1) as nat);
    let left = reduced(h, g, later, i, size as int);
    assert(y[i] == left.over(h[i][i]));
    lemma_reduced_same(h, g, later, y, i, size as int);
    lemma_reduced(h, g, y, i, size as int);
    assert(left.over(h[i][i]).times(h[i][i]) == left);
    lemma_ring(h[i][i], y[i], y[i]);
    // The diagonal term comes first.
    let term = |m: int| h[i + m][i].times(y[i + m]);
    let rest = (size - i - 1) as nat;
    lemma_total_parts(1, rest, term);
    let tail = |m: int| h[i + 1 + m][i].times(y[i + 1 + m]);
    lemma_total_same(rest, |m: int| term(1 + m), tail);
    reveal_with_fuel(total, 2);
    lemma_ring(term(0), term(0), term(0));
    assert(total(1, term) == term(0));
}

/// `x + dx`.
pub open spec fn shifted<E: Field>(x: Seq<E>, dx: Seq<E>) -> Seq<E> {
    Seq::new(x.len(), |i: int| x[i].plus(dx[i]))
}

/// In exact arithmetic, and where the operator acts linearly, adding a combination of vectors to `x`
/// takes the same combination of their images from the residual.
pub proof fn lemma_shifted_residual<T: Scalar>(
    system: System<T>,
    x: Seq<Cplx<T>>,
    coefficients: Seq<Cplx<T>>,
    parts: Seq<Seq<Cplx<T>>>,
    images: Seq<Seq<Cplx<T>>>,
    size: nat,
    at: int,
)
    requires
        is_ring::<Cplx<T>>(),
        acts_linearly(system.image, system.b.len()),
        x.len() == system.b.len(),
        (system.image)(x).len() == system.b.len(),
        0 <= at < system.b.len(),
        forall|j: int|
            0 <= j < size ==> (#[trigger] parts[j]).len() == system.b.len() && images[j] == (
            system.image)(parts[j]),
    ensures
        ({
            let zero = zero_vector::<Cplx<T>>(system.b.len());
            let dx = accumulate(zero, coefficients, parts, size);
            let taken = accumulate(zero, coefficients, images, size);
            system.residual(shifted(x, dx))[at] == system.residual(x)[at].minus(taken[at])
        }),
{
    let n = system.b.len();
    let one = Cplx::<T>::unit();
    let rel = image_pairs(system.image, n);
    let zero = zero_vector::<Cplx<T>>(n);
    assert forall|j: int| 0 <= j < size implies rel(#[trigger] parts[j], images[j]) by {}
    lemma_accumulate_related(rel, n, zero, zero, coefficients, parts, images, size);
    let dx = accumulate(zero, coefficients, parts, size);
    let taken = accumulate(zero, coefficients, images, size);
    assert(rel(dx, taken));
    let ax = (system.image)(x);
    assert(rel(x, ax));
    assert(rel(plus_multiple(x, one, dx), plus_multiple(ax, one, taken)));
    let next = shifted(x, dx);
    assert forall|i: int| 0 <= i < n implies next[i] == plus_multiple(x, one, dx)[i] by {
        lemma_ring(dx[i], one, one);
    }
    assert(next =~= plus_multiple(x, one, dx));
    assert((system.image)(next) == plus_multiple(ax, one, taken));
    // b − (ax + taken) = (b − ax) − taken
    let (b, a, t) = (system.b[at], ax[at], taken[at]);
    lemma_ring(t, one, one);
    lemma_ring(b, a.plus(t), b);
    lemma_negative_sum(a, t);
    lemma_ring(b, a, b);
    lemma_ring(b, a.negated(), t.negated());
    lemma_ring(b.plus(a.negated()), t, b);
    assert(plus_multiple(ax, one, taken)[at] == a.plus(t));
}

/// In exact arithmetic, and where the operator acts linearly, a cycle takes from the residual the
/// images of its preconditioned directions, each times its coefficient.
pub proof fn lemma_cycle_residual<T: Scalar>(system: System<T>, outer: Outer<T>, at: int)
    requires
        is_ring::<Cplx<T>>(),
        acts_linearly(system.image, system.b.len()),
        outer.x.len() == system.b.len(),
        (system.image)(outer.x).len() == system.b.len(),
        0 <= at < system.b.len(),
        system.both_phases(outer).filled > 0,
        forall|j: int|
            0 <= j < system.both_phases(outer).filled ==> (
            #[trigger] system.preconditioned_direction(
                outer.aug,
                system.both_phases(outer).basis,
                j,
            )).len() == system.b.len(),
    ensures
        ({
            let sweep = system.both_phases(outer);
            let taken = accumulate(
                zero_vector::<Cplx<T>>(system.b.len()),
                triangular_solution(sweep.basis.h, sweep.basis.g, sweep.filled, 0),
                Seq::new(
                    sweep.filled,
                    |j: int|
                        (system.image)(
                            system.preconditioned_direction(outer.aug, sweep.basis, j),
                        ),
                ),
                sweep.filled,
            );
            system.residual(system.cycled(outer).x)[at] == system.residual(outer.x)[at].minus(
                taken[at],
            )
        }),
{
    let sweep = system.both_phases(outer);
    let (basis, size) = (sweep.basis, sweep.filled);
    let y = triangular_solution(basis.h, basis.g, size, 0);
    let parts = Seq::new(size, |j: int| system.preconditioned_direction(outer.aug, basis, j));
    let images = Seq::new(
        size,
        |j: int| (system.image)(system.preconditioned_direction(outer.aug, basis, j)),
    );
    assert forall|j: int| 0 <= j < size implies (#[trigger] parts[j]).len() == system.b.len()
        && images[j] == (system.image)(parts[j]) by {
        assert(system.preconditioned_direction(outer.aug, basis, j).len() == system.b.len());
    }
    lemma_shifted_residual(system, outer.x, y, parts, images, size, at);
    let dx = system.increment(outer.aug, basis, size);
    assert(system.cycled(outer).x =~= shifted(outer.x, dx));
}

} // verus!
