//! What a solve by LGMRES is for, in exact arithmetic: which residual it stops at, and what its
//! preconditioner and the directions that it saves do.
use super::complex_gmres::ComplexGmresResult;
use super::complex_lgmres::{
    answers, aug_dim_of, fresh_start, posed, restart_of, tolerance, triangular_solution, Basis,
    Ending, Outer, Sweep, System,
};
use super::identities::{lemma_shifted_residual, shifted};
use super::minimal::{
    directions, fits, lemma_cycle_filled, lemma_cycle_fits, lemma_residual_minimal, ready,
};
use super::unitary::{is_real_field, lemma_inner_self, lemma_normalised, order_laws, real_laws};
use crate::complex::Cplx;
use crate::eigen::block::{accumulate, lemma_accumulate_length};
use crate::eigen::free_pencil::{converts, converts_exactly, returns_from_wide};
use crate::eigen::orthonormal::lemma_accumulate_total;
use crate::error::SolverError;
use crate::exact::{is_ring, lemma_ring, lemma_times_nought, total};
use crate::fourier::lemma_complex_ring;
use crate::operator::Preconditioner;
use crate::scalar::{wide_or, Field, Real, Scalar};
use crate::vector::{complex_euclidean, multiplied, square_sum, zero_vector};
use vstd::prelude::*;

verus! {

/// The larger of two numbers is one of them that is at least the other.
pub open spec fn larger_law<W: Real>(a: W, b: W) -> bool {
    &&& b.at_most(a) ==> a.larger(b) == a
    &&& a.at_most(b) ==> a.larger(b) == b
}

/// Nothing is rounded, neither in the numbers nor on the way to double precision and back.
pub open spec fn is_exact<T: Scalar>() -> bool {
    &&& is_real_field::<T>()
    &&& converts_exactly::<T>()
    &&& forall|a: T::Wide, b: T::Wide| #[trigger] larger_law(a, b)
}

/// The norm of the residual `b − A·x`.
pub open spec fn residual_norm<T: Scalar>(
    image: spec_fn(Seq<Cplx<T>>) -> Seq<Cplx<T>>,
    b: Seq<Cplx<T>>,
    x: Seq<Cplx<T>>,
) -> T {
    complex_euclidean(Seq::new(b.len(), |i: int| b[i].minus(image(x)[i])))
}

/// In exact arithmetic the tolerance is relative to the right-hand side, with the absolute one as
/// its least value: a solve that comes to an end within its iteration limit reports convergence
/// exactly where the norm of `b − A·x` is at most `rtol` times the norm of `b`, where that is at
/// least `atol`, and at most `atol`, where that is larger. What it reports as the norm of the
/// residual is that norm.
pub proof fn lemma_relative_tolerance<T: Scalar>(
    image: spec_fn(Seq<Cplx<T>>) -> Seq<Cplx<T>>,
    precond: Option<&dyn Preconditioner<Cplx<T>>>,
    b: Seq<Cplx<T>>,
    rtol: T::Wide,
    atol: T::Wide,
    max_iter: usize,
    restart: nat,
    aug_dim: nat,
    x0: Seq<Cplx<T>>,
    r: Result<ComplexGmresResult<T::Wide>, SolverError<T::Wide>>,
    x: Seq<Cplx<T>>,
)
    requires
        is_exact::<T>(),
        restart >= 1,
        answers(
            b.len(),
            b.len(),
            posed(image, precond, b, rtol, atol, max_iter as nat, restart, aug_dim),
            x0,
            r,
            x,
            max_iter,
        ),
        x0.len() == b.len(),
        !complex_euclidean(b).less(T::resolution()),
    ensures
        r matches Ok(s) ==> {
            let norm = residual_norm(image, b, x);
            let relative = rtol.times(wide_or(complex_euclidean(b), T::Wide::nought()));
            &&& s.residual_norm == wide_or(norm, T::Wide::nought())
            &&& s.converged || max_iter == 0
            &&& s.iters <= max_iter
            &&& atol.at_most(relative) ==> s.converged == norm.at_most(
                T::narrowed(rtol).times(complex_euclidean(b)),
            )
            &&& relative.at_most(atol) ==> s.converged == norm.at_most(T::narrowed(atol))
        },
{
    let system = posed(image, precond, b, rtol, atol, max_iter as nat, restart, aug_dim);
    let start = fresh_start(x0, restart, aug_dim);
    system.lemma_ending(start);
    lemma_tolerance(b, rtol, atol);
    if let Ok(s) = r {
        match system.solved(start) {
            Ending::Checked { outer, beta } => {
                assert(system.residual(x) =~= Seq::new(
                    b.len(),
                    |i: int| b[i].minus(image(x)[i]),
                ));
            },
            Ending::Exhausted { .. } => {},
        }
    }
}

/// In exact arithmetic the tolerance is `rtol` times the norm of `b`, but at least `atol`.
proof fn lemma_tolerance<T: Scalar>(b: Seq<Cplx<T>>, rtol: T::Wide, atol: T::Wide)
    requires
        is_exact::<T>(),
    ensures
        ({
            let norm = complex_euclidean(b);
            let relative = rtol.times(wide_or(norm, T::Wide::nought()));
            &&& atol.at_most(relative) ==> tolerance::<T>(b, rtol, atol) == T::narrowed(
                rtol,
            ).times(norm)
            &&& relative.at_most(atol) ==> tolerance::<T>(b, rtol, atol) == T::narrowed(atol)
        }),
{
    let norm = complex_euclidean(b);
    let wide = wide_or(norm, T::Wide::nought());
    assert(larger_law(rtol.times(wide), atol));
    assert(converts::<T>(rtol, wide));
    assert(returns_from_wide(norm));
}

/// A start within the tolerance is returned as it is, without an iteration; one outside of it is
/// not.
pub proof fn lemma_good_start_stays<T: Scalar>(
    image: spec_fn(Seq<Cplx<T>>) -> Seq<Cplx<T>>,
    precond: Option<&dyn Preconditioner<Cplx<T>>>,
    b: Seq<Cplx<T>>,
    rtol: T::Wide,
    atol: T::Wide,
    max_iter: usize,
    restart: nat,
    aug_dim: nat,
    x0: Seq<Cplx<T>>,
    r: Result<ComplexGmresResult<T::Wide>, SolverError<T::Wide>>,
    x: Seq<Cplx<T>>,
)
    requires
        is_exact::<T>(),
        restart >= 1,
        answers(
            b.len(),
            b.len(),
            posed(image, precond, b, rtol, atol, max_iter as nat, restart, aug_dim),
            x0,
            r,
            x,
            max_iter,
        ),
        x0.len() == b.len(),
        !complex_euclidean(b).less(T::resolution()),
        atol.at_most(rtol.times(wide_or(complex_euclidean(b), T::Wide::nought()))),
    ensures
        residual_norm(image, b, x0).at_most(T::narrowed(rtol).times(complex_euclidean(b)))
            ==> (r matches Ok(s) && s.iters == 0 && s.converged && x == x0),
        !residual_norm(image, b, x0).at_most(T::narrowed(rtol).times(complex_euclidean(b)))
            && max_iter >= 1 ==> (r matches Ok(s) ==> s.iters >= 1),
{
    let system = posed(image, precond, b, rtol, atol, max_iter as nat, restart, aug_dim);
    let start = fresh_start(x0, restart, aug_dim);
    lemma_tolerance(b, rtol, atol);
    assert(system.residual(x0) =~= Seq::new(b.len(), |i: int| b[i].minus(image(x0)[i])));
    if !complex_euclidean(system.residual(x0)).at_most(system.tol) && max_iter >= 1 {
        system.lemma_progress(start);
        let next = system.cycled(start);
        if next.iters < max_iter {
            system.lemma_ending(next);
        }
    }
}

/// Dimensions that do not fit are reported, and `x` is left as it was; a negligible right-hand side
/// has the solution zero.
pub proof fn lemma_special_answers<T: Scalar>(
    rows: nat,
    cols: nat,
    system: System<T>,
    x0: Seq<Cplx<T>>,
    r: Result<ComplexGmresResult<T::Wide>, SolverError<T::Wide>>,
    x: Seq<Cplx<T>>,
    max_iter: usize,
)
    requires
        answers(rows, cols, system, x0, r, x, max_iter),
    ensures
        rows == system.b.len() && cols == system.b.len() && x0.len() == system.b.len() || (r
            matches Err(SolverError::DimensionMismatch { op_rows, op_cols, rhs_len })
            && op_rows == rows && op_cols == cols && rhs_len == system.b.len() && x == x0),
        rows == system.b.len() && cols == system.b.len() && x0.len() == system.b.len()
            && complex_euclidean(system.b).less(T::resolution()) ==> (r matches Ok(s)
            && s.converged && s.iters == 0 && x.len() == system.b.len() && (forall|i: int|
            0 <= i < x.len() ==> #[trigger] x[i] == Cplx::<T>::nought())),
{
}

/// The first basis vector of a phase stays.
proof fn lemma_first_vector<T: Scalar>(
    system: System<T>,
    sweep: Sweep<T>,
    along: Option<Seq<Seq<Cplx<T>>>>,
    j: nat,
    end: nat,
    total: nat,
)
    requires
        end <= total < sweep.basis.v.len(),
    ensures
        system.swept(sweep, along, j, end, total).basis.v[0] == sweep.basis.v[0],
        system.swept(sweep, along, j, end, total).basis.v.len() == sweep.basis.v.len(),
    decreases end - j,
{
    if j < end && sweep.iters < system.max_iter {
        let direction = match along {
            Some(a) => a[j as int],
            None => sweep.basis.v[j as int],
        };
        let basis = system.extended(sweep.basis, direction, j);
        let next = system.fresh_norm(sweep.basis, direction, j);
        let w = system.fresh_part(sweep.basis, direction, j);
        let unit = multiplied(w, Cplx::on_axis(T::unit().over(next)));
        let on = Sweep {
            basis: Basis { v: basis.v.update(j as int + 1, unit), ..basis },
            iters: sweep.iters + 1,
            filled: j + 1,
            done: false,
        };
        lemma_first_vector(system, on, along, j + 1, end, total);
    }
}

/// The combination in which only vector `j` has a coefficient.
proof fn lemma_single_combination<E: Field>(
    n: nat,
    only: Seq<E>,
    parts: Seq<Seq<E>>,
    count: nat,
    j: int,
    at: int,
)
    requires
        is_ring::<E>(),
        0 <= j < count,
        0 <= at < n,
        forall|i: int| 0 <= i < count && i != j ==> #[trigger] only[i] == E::nought(),
    ensures
        accumulate(zero_vector::<E>(n), only, parts, count)[at] == only[j].times(parts[j][at]),
{
    lemma_accumulate_total(n, only, parts, count, at);
    lemma_single_term(count, |i: int| only[i].times(parts[i][at]), only, parts, j, at, count);
}

/// A sum with one coefficient other than zero.
proof fn lemma_single_term<E: Field>(
    m: nat,
    f: spec_fn(int) -> E,
    only: Seq<E>,
    parts: Seq<Seq<E>>,
    j: int,
    at: int,
    count: nat,
)
    requires
        is_ring::<E>(),
        m <= count,
        0 <= j < count,
        forall|i: int| 0 <= i < count ==> #[trigger] f(i) == only[i].times(parts[i][at]),
        forall|i: int| 0 <= i < count && i != j ==> #[trigger] only[i] == E::nought(),
    ensures
        total(m, f) == (if j < m {
            only[j].times(parts[j][at])
        } else {
            E::nought()
        }),
    decreases m,
{
    if m > 0 {
        lemma_single_term((m - 1) as nat, f, only, parts, j, at, count);
        assert(f(m - 1) == only[m - 1].times(parts[m - 1][at]));
        lemma_times_nought(parts[m - 1][at]);
        lemma_ring(f(m - 1), E::nought(), E::nought());
        lemma_ring(total((m - 1) as nat, f), E::nought(), E::nought());
    }
}

/// In exact arithmetic, a cycle leaves a residual at most as large as any step along one of its
/// preconditioned directions would.
proof fn lemma_beats_direction<T: Scalar>(
    system: System<T>,
    outer: Outer<T>,
    size: nat,
    j: int,
    c: Cplx<T>,
)
    requires
        is_real_field::<T>(),
        ready(system, outer, size),
        0 <= j < system.both_phases(outer).filled,
    ensures
        ({
            let z = directions(system, outer)[j];
            let rival = shifted(
                outer.x,
                Seq::new(system.b.len(), |i: int| c.times(z[i])),
            );
            complex_euclidean(system.residual(system.cycled(outer).x)).at_most(
                complex_euclidean(system.residual(rival)),
            )
        }),
{
    lemma_complex_ring::<T>();
    let n = system.b.len();
    let parts = directions(system, outer);
    let p = system.both_phases(outer).filled;
    let other = Seq::new(
        p,
        |i: int|
            if i == j {
                c
            } else {
                Cplx::<T>::nought()
            },
    );
    lemma_residual_minimal(system, outer, size, other);
    let dx = accumulate(zero_vector::<Cplx<T>>(n), other, parts, p);
    let step = Seq::new(n, |i: int| c.times(parts[j][i]));
    lemma_accumulate_length(zero_vector::<Cplx<T>>(n), other, parts, p);
    assert forall|at: int| 0 <= at < n implies dx[at] == step[at] by {
        lemma_single_combination(n, other, parts, p, j, at);
    }
    assert(dx =~= step);
}

/// In exact arithmetic, what earlier cycles saved is used: a cycle leaves a residual at most as
/// large as any step along a saved direction, once preconditioned, would.
pub proof fn lemma_saved_directions_used<T: Scalar>(
    system: System<T>,
    outer: Outer<T>,
    size: nat,
    j: int,
    c: Cplx<T>,
)
    requires
        is_real_field::<T>(),
        ready(system, outer, size),
        0 <= j < outer.aug.len(),
        j < system.both_phases(outer).filled,
    ensures
        ({
            let z = (system.correction)(outer.aug[j]);
            let rival = shifted(
                outer.x,
                Seq::new(system.b.len(), |i: int| c.times(z[i])),
            );
            complex_euclidean(system.residual(system.cycled(outer).x)).at_most(
                complex_euclidean(system.residual(rival)),
            )
        }),
{
    lemma_beats_direction(system, outer, size, j, c);
}

/// In exact arithmetic, a cycle saves the direction of its update: where there is room for saved
/// directions and the update is not zero, the last of them times the norm of the update is the
/// update. The others stay, the oldest leaving where there is no room.
pub proof fn lemma_update_saved<T: Scalar>(system: System<T>, outer: Outer<T>, size: nat)
    requires
        is_real_field::<T>(),
        ready(system, outer, size),
        system.aug_dim >= 1,
        ({
            let next = system.cycled(outer);
            complex_euclidean(
                Seq::new(system.b.len(), |i: int| next.x[i].minus(outer.x[i])),
            ) != T::nought()
        }),
    ensures
        ({
            let next = system.cycled(outer);
            let dx = Seq::new(system.b.len(), |i: int| next.x[i].minus(outer.x[i]));
            let old = outer.aug.len();
            let now = next.aug.len();
            &&& now >= 1
            &&& now == (if old < system.aug_dim {
                old + 1
            } else {
                system.aug_dim
            })
            &&& forall|i: int|
                0 <= i < system.b.len() ==> Cplx::on_axis(complex_euclidean(dx)).times(
                    #[trigger] next.aug[now - 1][i],
                ) == dx[i]
            &&& forall|i: int|
                0 <= i < now - 1 ==> #[trigger] next.aug[i] == outer.aug[i + (old + 1 - now)]
        }),
{
    lemma_complex_ring::<T>();
    let zero = Cplx::<T>::nought();
    let n = system.b.len();
    let sweep = system.both_phases(outer);
    lemma_cycle_filled(system, outer, size);
    let next = system.cycled(outer);
    let dx = system.increment(outer.aug, sweep.basis, sweep.filled);
    let y = triangular_solution(
        sweep.basis.h,
        sweep.basis.g,
        sweep.filled,
        0,
    );
    let parts = Seq::new(
        sweep.filled,
        |j: int| system.preconditioned_direction(outer.aug, sweep.basis, j),
    );
    lemma_accumulate_length(zero_vector::<Cplx<T>>(n), y, parts, sweep.filled);
    let apart = Seq::new(n, |i: int| next.x[i].minus(outer.x[i]));
    assert forall|i: int| 0 <= i < n implies apart[i] == dx[i] by {
        let (x, d) = (outer.x[i], dx[i]);
        lemma_ring(x, d, x.negated());
        lemma_ring(d, x, x.negated());
        lemma_ring(x, x, x);
        lemma_ring(d, zero, zero);
        lemma_ring(x.plus(d), x, zero);
    }
    assert(apart =~= dx);
    lemma_inner_self(dx, n);
    let square = square_sum(dx, n);
    assert(real_laws(square, square));
    assert(real_laws(square.root(), square));
    lemma_normalised(dx);
}

/// In exact arithmetic, the first cycle of a solve leaves a residual at most as large as any step
/// along its preconditioned starting residual would: with a preconditioner, the step is along what
/// the preconditioner makes of `b − A·x₀`, divided by its norm.
pub proof fn lemma_preconditioner_used<T: Scalar>(
    image: spec_fn(Seq<Cplx<T>>) -> Seq<Cplx<T>>,
    precond: Option<&dyn Preconditioner<Cplx<T>>>,
    b: Seq<Cplx<T>>,
    rtol: T::Wide,
    atol: T::Wide,
    max_iter: usize,
    restart: nat,
    aug_dim: nat,
    x0: Seq<Cplx<T>>,
    c: Cplx<T>,
)
    requires
        is_real_field::<T>(),
        ({
            let system = posed(image, precond, b, rtol, atol, max_iter as nat, restart, aug_dim);
            ready(system, fresh_start(x0, restart, aug_dim), restart + aug_dim)
        }),
    ensures
        ({
            let system = posed(image, precond, b, rtol, atol, max_iter as nat, restart, aug_dim);
            let next = system.cycled(fresh_start(x0, restart, aug_dim));
            let r = Seq::new(b.len(), |i: int| b[i].minus(image(x0)[i]));
            let unit = multiplied(r, Cplx::on_axis(T::unit().over(complex_euclidean(r))));
            let z = match precond {
                Some(m) => m.correction(unit),
                None => unit,
            };
            let rival = Seq::new(x0.len(), |i: int| x0[i].plus(c.times(z[i])));
            residual_norm(image, b, next.x).at_most(residual_norm(image, b, rival))
        }),
{
    let system = posed(image, precond, b, rtol, atol, max_iter as nat, restart, aug_dim);
    let outer = fresh_start(x0, restart, aug_dim);
    let n = b.len();
    let size = restart + aug_dim;
    lemma_cycle_filled(system, outer, size);
    lemma_beats_direction(system, outer, size, 0, c);
    let r = Seq::new(b.len(), |i: int| b[i].minus(image(x0)[i]));
    assert(system.residual(x0) =~= r);
    let unit = multiplied(r, Cplx::on_axis(T::unit().over(complex_euclidean(r))));
    let sweep = system.both_phases(outer);
    let start = Sweep {
        basis: system.restarted(outer),
        iters: outer.iters,
        filled: 0,
        done: false,
    };
    let (count, all) = (system.augmented(outer), system.steps(outer));
    lemma_first_vector(system, start, Some(outer.aug), 0, count, all);
    lemma_first_vector(system, system.phase_a(outer), None, count, all, all);
    assert(sweep.basis.v[0] == unit);
    let z = directions(system, outer)[0];
    let next = system.cycled(outer).x;
    let rival = Seq::new(x0.len(), |i: int| x0[i].plus(c.times(z[i])));
    assert(rival =~= shifted(x0, Seq::new(n, |i: int| c.times(z[i]))));
    assert(system.residual(next) =~= Seq::new(b.len(), |i: int| b[i].minus(image(next)[i])));
    assert(system.residual(rival) =~= Seq::new(b.len(), |i: int| b[i].minus(image(rival)[i])));
}

/// In exact arithmetic, a preconditioner that inverts the operator solves the system in one cycle:
/// the norm of the residual after it is at most zero.
pub proof fn lemma_exact_preconditioner<T: Scalar>(
    image: spec_fn(Seq<Cplx<T>>) -> Seq<Cplx<T>>,
    precond: Option<&dyn Preconditioner<Cplx<T>>>,
    b: Seq<Cplx<T>>,
    rtol: T::Wide,
    atol: T::Wide,
    max_iter: usize,
    restart: nat,
    aug_dim: nat,
    x0: Seq<Cplx<T>>,
)
    requires
        is_real_field::<T>(),
        ({
            let system = posed(
                image,
                precond,
                b,
                rtol,
                atol,
                max_iter as nat,
                restart,
                aug_dim,
            );
            ready(system, fresh_start(x0, restart, aug_dim), restart + aug_dim)
        }),
        precond matches Some(m) && forall|v: Seq<Cplx<T>>|
            v.len() == b.len() ==> image(#[trigger] m.correction(v)) == v,
    ensures
        ({
            let system = posed(
                image,
                precond,
                b,
                rtol,
                atol,
                max_iter as nat,
                restart,
                aug_dim,
            );
            let next = system.cycled(fresh_start(x0, restart, aug_dim));
            residual_norm(image, b, next.x).at_most(T::nought())
        }),
{
    lemma_complex_ring::<T>();
    let zero = Cplx::<T>::nought();
    let system = posed(image, precond, b, rtol, atol, max_iter as nat, restart, aug_dim);
    let n = b.len();
    let r = Seq::new(b.len(), |i: int| b[i].minus(image(x0)[i]));
    let beta = complex_euclidean(r);
    let unit = multiplied(r, Cplx::on_axis(T::unit().over(beta)));
    let c = Cplx::on_axis(beta);
    lemma_preconditioner_used(
        image,
        precond,
        b,
        rtol,
        atol,
        max_iter,
        restart,
        aug_dim,
        x0,
        c,
    );
    assert(system.residual(x0) =~= r);
    assert(beta != T::nought());
    lemma_normalised(r);
    let z = match precond {
        Some(m) => m.correction(unit),
        None => unit,
    };
    assert(image(z) == unit);
    let rival = Seq::new(x0.len(), |i: int| x0[i].plus(c.times(z[i])));
    assert((system.correction)(unit).len() == n);
    let rest = Seq::new(b.len(), |i: int| b[i].minus(image(rival)[i]));
    assert forall|at: int| 0 <= at < n implies rest[at] == zero by {
        let (coefficients, parts, images) = (seq![c], seq![z], seq![unit]);
        assert((system.image)(x0).len() == n);
        assert(parts[0] == z && images[0] == unit);
        lemma_shifted_residual(system, x0, coefficients, parts, images, 1, at);
        let dx = accumulate(zero_vector::<Cplx<T>>(n), coefficients, parts, 1);
        let taken = accumulate(zero_vector::<Cplx<T>>(n), coefficients, images, 1);
        reveal_with_fuel(accumulate, 2);
        assert forall|i: int| 0 <= i < n implies dx[i] == c.times(z[i]) && taken[i] == c.times(
            unit[i],
        ) by {
            lemma_ring(c.times(z[i]), zero, zero);
            lemma_ring(c.times(unit[i]), zero, zero);
        }
        assert(shifted(x0, dx) =~= rival);
        assert(c.times(unit[at]) == r[at]);
        lemma_ring(r[at], r[at], zero);
        assert(system.residual(rival)[at] == rest[at]);
    }
    assert(square_sum(rest, n) == T::nought()) by {
        lemma_square_sum_nought(rest, n);
    }
    assert(real_laws(T::nought(), T::nought()));
    let root = T::nought().root();
    lemma_ring(T::nought(), T::nought(), T::nought());
    assert(T::nought().at_most(T::nought())) by {
        assert(order_laws(T::nought(), T::nought(), T::nought()));
    }
    assert(root.times(root) == T::nought());
    assert(root == T::nought()) by {
        if root != T::nought() {
            let q = T::unit().over(root);
            assert(real_laws(T::unit(), root));
            lemma_ring(root, root, root);
            lemma_ring(q, root, root);
            lemma_times_nought(q);
        }
    }
}

/// The squares of zeros add up to zero.
proof fn lemma_square_sum_nought<T: Real>(a: Seq<Cplx<T>>, n: nat)
    requires
        is_ring::<T>(),
        forall|i: int| 0 <= i < n ==> #[trigger] a[i] == Cplx::<T>::nought(),
    ensures
        square_sum(a, n) == T::nought(),
    decreases n,
{
    if n > 0 {
        lemma_square_sum_nought(a, (n - 1) as nat);
        assert(a[n - 1] == Cplx::<T>::nought());
        lemma_times_nought(T::nought());
        lemma_ring(T::nought(), T::nought(), T::nought());
    }
}

/// The restart length is used as it is given, but for zero, which counts as one; so is the number of
/// saved directions, up to twenty.
pub proof fn lemma_parameters_used(restart: nat, aug_dim: nat)
    ensures
        restart >= 1 ==> restart_of(restart) == restart,
        restart == 0 ==> restart_of(restart) == 1,
        aug_dim <= 20 ==> aug_dim_of(aug_dim) == aug_dim,
        aug_dim > 20 ==> aug_dim_of(aug_dim) == 20,
{
}

/// The state with which a solve ends.
pub open spec fn final_state<T: Scalar>(ending: Ending<T>) -> Outer<T> {
    match ending {
        Ending::Checked { outer, .. } => outer,
        Ending::Exhausted { outer } => outer,
    }
}

/// `last` is the state after a cycle from `before`, and its history that from before the cycle with
/// one length more.
pub open spec fn comes_after<T: Scalar>(
    system: System<T>,
    before: Outer<T>,
    last: Outer<T>,
    size: nat,
) -> bool {
    &&& ready(system, before, size)
    &&& last == system.cycled(before)
    &&& last.history.len() == before.history.len() + 1
    &&& last.history.drop_last() == before.history
}

/// A solve that has something to do ends after a cycle.
proof fn lemma_last_cycle<T: Scalar>(system: System<T>, outer: Outer<T>, size: nat)
    requires
        is_real_field::<T>(),
        ready(system, outer, size),
    ensures
        exists|before: Outer<T>| #[trigger]
            comes_after(system, before, final_state(system.solved(outer)), size),
    decreases system.max_iter - outer.iters,
{
    let next = system.cycled(outer);
    let last = final_state(system.solved(outer));
    lemma_cycle_filled(system, outer, size);
    lemma_cycle_fits(system, outer, size);
    system.lemma_progress(outer);
    assert(next.history.drop_last() =~= outer.history);
    assert(comes_after(system, outer, next, size));
    if next.iters < system.max_iter {
        if !complex_euclidean(system.residual(next.x)).at_most(system.tol) {
            lemma_last_cycle(system, next, size);
            assert(last == final_state(system.solved(next)));
        } else {
            assert(system.solved(next) is Checked);
            assert(last == next);
        }
    } else {
        assert(last == next);
    }
}

/// In exact arithmetic, a solve reports the lengths that its cycles recorded. It reports none where
/// it makes no cycle. Where it makes one, the `x` that it leaves and the last length that it reports
/// are those of its last cycle, whether it succeeds or uses up its iterations.
pub proof fn lemma_history_reported<T: Scalar>(
    system: System<T>,
    x0: Seq<Cplx<T>>,
    r: Result<ComplexGmresResult<T::Wide>, SolverError<T::Wide>>,
    x: Seq<Cplx<T>>,
    max_iter: usize,
)
    requires
        is_real_field::<T>(),
        fits(
            system,
            fresh_start(x0, system.restart, system.aug_dim),
            system.restart + system.aug_dim,
        ),
        system.max_iter == max_iter,
        answers(system.b.len(), system.b.len(), system, x0, r, x, max_iter),
        !complex_euclidean(system.b).less(T::resolution()),
    ensures
        ({
            let size = system.restart + system.aug_dim;
            let idle = complex_euclidean(system.residual(x0)).at_most(system.tol) || max_iter == 0;
            &&& idle ==> (r matches Ok(s) && s.residual_history@.len() == 0)
            &&& !idle ==> exists|before: Outer<T>, last: Outer<T>| #[trigger]
                comes_after(system, before, last, size) && x == last.x && match r {
                    Ok(s) => s.residual_history@ == last.history,
                    Err(e) => e == (SolverError::ConvergenceFailed {
                        max_iter,
                        residual: last.history.last(),
                    }),
                }
        }),
{
    let start = fresh_start(x0, system.restart, system.aug_dim);
    let size = system.restart + system.aug_dim;
    if ready(system, start, size) {
        lemma_last_cycle(system, start, size);
        let last = final_state(system.solved(start));
        let before = choose|before: Outer<T>| #[trigger] comes_after(system, before, last, size);
        assert(comes_after(system, before, last, size));
    }
}

} // verus!
