//! What a fit is for, in exact arithmetic: where its poles stand, what a model takes as its value,
//! and what the least-squares problems are solved for.
use super::{
    angular, begins, lemma_problem_fits_samples, model_value, on_axis_all, partial_fractions,
    shorter, FitStep, LeastSquares, VectorFit, VectorFitModel,
};
use crate::complex::Cplx;
use crate::exact::{
    is_ring, lemma_ring, lemma_times_nought, lemma_total_same, total,
};
use crate::fourier::lemma_complex_ring;
use crate::iterative::unitary::{is_real_field, lemma_quotient, real_laws};
use crate::rational_fit::divides;
use crate::scalar::{Field, Real};
use vstd::prelude::*;

verus! {

/// The laws of powers of a positive number.
pub open spec fn power_laws<T: Real>(x: T, a: T, b: T) -> bool {
    T::nought().less(x) ==> {
        &&& x.raised(T::nought()) == T::unit()
        &&& x.raised(T::unit()) == x
        &&& x.raised(a.plus(b)) == x.raised(a).times(x.raised(b))
    }
}

/// Whole numbers count.
pub open spec fn counts_up<T: Real>(n: nat) -> bool {
    &&& T::whole(n + 1) == T::whole(n).plus(T::unit())
    &&& T::whole(n + 1) != T::nought()
}

/// The numbers are the real numbers, with whole numbers, decimal fractions and powers.
pub open spec fn has_powers<T: Real>() -> bool {
    &&& is_real_field::<T>()
    &&& T::whole(0) == T::nought()
    &&& forall|n: nat| #[trigger] counts_up::<T>(n)
    &&& forall|x: T, a: T, b: T| #[trigger] power_laws(x, a, b)
    &&& T::scaled(2, 0) == T::unit().plus(T::unit())
    &&& T::scaled(1, -2).times(T::whole(100)) == T::unit()
}

/// The poles of a fit that has begun.
pub open spec fn poles_of<T: Real>(step: FitStep<T>) -> Seq<Cplx<T>> {
    match step {
        FitStep::Continue { fit, .. } => fit.poles@,
        FitStep::Done(model) => model.poles@,
    }
}

/// The quotient of a difference of whole numbers.
proof fn lemma_whole_quotient<T: Real>(k: nat, m: nat)
    requires
        has_powers::<T>(),
        m >= 1,
    ensures
        T::whole(0).over(T::whole(m)) == T::nought(),
        T::whole(m).over(T::whole(m)) == T::unit(),
        T::whole(k + 1).over(T::whole(m)) == T::whole(k).over(T::whole(m)).plus(
            T::unit().over(T::whole(m)),
        ),
{
    let w = T::whole(m);
    let zero = T::nought();
    assert(counts_up::<T>((m - 1) as nat));
    assert(counts_up::<T>(k));
    assert(w != zero);
    lemma_times_nought(w);
    lemma_quotient_unique(T::whole(0), w, zero);
    lemma_ring(w, w, w);
    lemma_quotient_unique(w, w, T::unit());
    let (a, b) = (T::whole(k).over(w), T::unit().over(w));
    assert(real_laws(T::whole(k), w));
    assert(real_laws(T::unit(), w));
    lemma_ring(w, a, b);
    lemma_ring(w, a.plus(b), a);
    lemma_ring(w, b, a);
    lemma_quotient_unique(T::whole(k + 1), w, a.plus(b));
}

/// A quotient is the only number that gives the dividend back.
pub proof fn lemma_quotient_unique<T: Real>(a: T, b: T, q: T)
    requires
        is_real_field::<T>(),
        b != T::nought(),
        q.times(b) == a,
    ensures
        a.over(b) == q,
{
    let p = a.over(b);
    let inverse = T::unit().over(b);
    assert(real_laws(a, b));
    assert(real_laws(T::unit(), b));
    // p = p·b·b⁻¹ = q·b·b⁻¹ = q
    lemma_ring(p, b, inverse);
    lemma_ring(q, b, inverse);
    lemma_ring(b, inverse, b);
    lemma_ring(p, p, p);
    lemma_ring(q, q, q);
}

/// In exact arithmetic, angular frequencies are `2π` times the frequencies, and the samples are
/// those at the frequencies that there are.
pub proof fn lemma_angular_frequencies<T: Real>(
    step: FitStep<T>,
    freqs_hz: Seq<T>,
    h: Seq<Cplx<T>>,
    n_poles: nat,
    n_iter: nat,
    i: int,
)
    requires
        has_powers::<T>(),
        begins(step, freqs_hz, h, n_poles, n_iter),
        0 <= i < freqs_hz.len(),
        0 <= i < h.len(),
    ensures
        ({
            &&& step matches FitStep::Continue { fit, .. }
            &&& fit.omegas@.len() == shorter(freqs_hz.len(), h.len())
            &&& fit.samples@.len() == fit.omegas@.len()
            &&& fit.omegas@[i] == T::half_turn().times(freqs_hz[i]).plus(
                T::half_turn().times(freqs_hz[i]),
            )
            &&& fit.samples@[i] == h[i]
        }),
{
    let (turn, f, one) = (T::half_turn(), freqs_hz[i], T::unit());
    lemma_ring(turn, one, one);
    lemma_ring(one.plus(one), turn, one);
    lemma_ring(f, turn, turn);
    lemma_ring(turn.plus(turn), f, f);
    lemma_ring(turn, f, f);
}

/// In exact arithmetic, more than one pair of poles spans the sampled band: the first pair has the
/// frequency of the first sample and the last pair that of the last sample.
pub proof fn lemma_poles_span_band<T: Real>(
    step: FitStep<T>,
    freqs_hz: Seq<T>,
    h: Seq<Cplx<T>>,
    n_poles: nat,
    n_iter: nat,
)
    requires
        has_powers::<T>(),
        begins(step, freqs_hz, h, n_poles, n_iter),
        freqs_hz.len() >= 1,
        h.len() >= 1,
        n_poles >= 4,
        ({
            let n = shorter(freqs_hz.len(), h.len());
            let (w_min, w_max) = (angular(freqs_hz[0]), angular(freqs_hz[n - 1]));
            w_min != T::nought() && T::nought().less(w_max.over(w_min))
        }),
    ensures
        ({
            let n = shorter(freqs_hz.len(), h.len());
            let poles = poles_of(step);
            &&& poles.len() >= 4
            &&& poles[0].im == angular(freqs_hz[0])
            &&& poles[poles.len() - 2].im == angular(freqs_hz[n - 1])
        }),
{
    let n = shorter(freqs_hz.len(), h.len());
    let (w_min, w_max) = (angular(freqs_hz[0]), angular(freqs_hz[n - 1]));
    let poles = poles_of(step);
    let pairs = poles.len() / 2;
    let m = (pairs - 1) as nat;
    let ratio = w_max.over(w_min);
    lemma_whole_quotient::<T>(0, m);
    assert(power_laws(ratio, ratio, ratio));
    assert(0int / 2 == 0 && (poles.len() - 2) / 2 == m);
    lemma_ring(w_min, w_min, w_min);
    assert(real_laws(w_max, w_min));
    lemma_ring(w_min, ratio, ratio);
}

/// In exact arithmetic, the frequencies of the pairs are spaced logarithmically: the ratio of two
/// neighbouring ones is the same everywhere.
pub proof fn lemma_poles_evenly_spaced<T: Real>(
    step: FitStep<T>,
    freqs_hz: Seq<T>,
    h: Seq<Cplx<T>>,
    n_poles: nat,
    n_iter: nat,
    j: int,
    k: int,
)
    requires
        has_powers::<T>(),
        begins(step, freqs_hz, h, n_poles, n_iter),
        freqs_hz.len() >= 1,
        h.len() >= 1,
        ({
            let n = shorter(freqs_hz.len(), h.len());
            T::nought().less(angular(freqs_hz[n - 1]).over(angular(freqs_hz[0])))
        }),
        0 <= j,
        2 * j + 2 < poles_of(step).len(),
        0 <= k,
        2 * k + 2 < poles_of(step).len(),
    ensures
        ({
            let poles = poles_of(step);
            poles[2 * j + 2].im.times(poles[2 * k].im) == poles[2 * j].im.times(
                poles[2 * k + 2].im,
            )
        }),
{
    let n = shorter(freqs_hz.len(), h.len());
    let (w_min, w_max) = (angular(freqs_hz[0]), angular(freqs_hz[n - 1]));
    let poles = poles_of(step);
    let m = (poles.len() / 2 - 1) as nat;
    let ratio = w_max.over(w_min);
    let part = T::unit().over(T::whole(m));
    let q = ratio.raised(part);
    lemma_whole_quotient::<T>(j as nat, m);
    lemma_whole_quotient::<T>(k as nat, m);
    let (a, b) = (T::whole(j as nat).over(T::whole(m)), T::whole(k as nat).over(T::whole(m)));
    assert(power_laws(ratio, a, part));
    assert(power_laws(ratio, b, part));
    assert((2 * j) / 2 == j && (2 * j + 2) / 2 == j + 1 && (2 * k) / 2 == k && (2 * k + 2) / 2 == k
        + 1);
    let (x, y) = (poles[2 * j].im, poles[2 * k].im);
    lemma_ring(w_min, ratio.raised(a), q);
    lemma_ring(w_min, ratio.raised(b), q);
    assert(poles[2 * j + 2].im == x.times(q));
    assert(poles[2 * k + 2].im == y.times(q));
    lemma_ring(x, q, y);
    lemma_ring(q, y, y);
}

/// In exact arithmetic, a single pair stands in the middle of the band.
pub proof fn lemma_single_pair<T: Real>(
    step: FitStep<T>,
    freqs_hz: Seq<T>,
    h: Seq<Cplx<T>>,
    n_poles: nat,
    n_iter: nat,
)
    requires
        has_powers::<T>(),
        begins(step, freqs_hz, h, n_poles, n_iter),
        freqs_hz.len() >= 1,
        h.len() >= 1,
        n_poles < 4,
    ensures
        ({
            let n = shorter(freqs_hz.len(), h.len());
            let poles = poles_of(step);
            &&& poles.len() == 2
            &&& poles[0].im.plus(poles[0].im) == angular(freqs_hz[0]).plus(
                angular(freqs_hz[n - 1]),
            )
        }),
{
    let n = shorter(freqs_hz.len(), h.len());
    let sum = angular(freqs_hz[0]).plus(angular(freqs_hz[n - 1]));
    let two = T::scaled(2, 0);
    let one = T::unit();
    assert(counts_up::<T>(0));
    assert(counts_up::<T>(1));
    lemma_ring(one, T::nought(), one);
    assert(T::whole(2) == two);
    assert(real_laws(sum, two));
    let w = sum.over(two);
    lemma_ring(w, one, one);
    lemma_ring(w, two, one);
    assert(0int / 2 == 0);
}

/// In exact arithmetic, the starting poles are lightly damped and come in conjugate pairs: the real
/// part of both is a hundredth of the frequency of the pair, to the left of the axis.
pub proof fn lemma_poles_damped<T: Real>(
    step: FitStep<T>,
    freqs_hz: Seq<T>,
    h: Seq<Cplx<T>>,
    n_poles: nat,
    n_iter: nat,
    k: int,
)
    requires
        has_powers::<T>(),
        begins(step, freqs_hz, h, n_poles, n_iter),
        freqs_hz.len() >= 1,
        h.len() >= 1,
        0 <= k,
        2 * k + 1 < poles_of(step).len(),
    ensures
        ({
            let (upper, lower) = (poles_of(step)[2 * k], poles_of(step)[2 * k + 1]);
            &&& lower.re == upper.re
            &&& lower.im == upper.im.negated()
            &&& upper.re.times(T::whole(100)) == upper.im.negated()
        }),
{
    assert((2 * k) / 2 == k && (2 * k + 1) / 2 == k);
    assert((2 * k) % 2 == 0 && (2 * k + 1) % 2 == 1);
    let w = poles_of(step)[2 * k].im;
    lemma_ring(w.negated(), T::scaled(1, -2), T::whole(100));
    lemma_ring(w.negated(), w, w);
}

/// How many poles and iterations there are: as many poles as asked for, rounded down to an even
/// number, but at least two; as many iterations as asked for, but at least two.
pub proof fn lemma_pole_numbers<T: Real>(
    step: FitStep<T>,
    freqs_hz: Seq<T>,
    h: Seq<Cplx<T>>,
    n_poles: nat,
    n_iter: nat,
)
    requires
        begins(step, freqs_hz, h, n_poles, n_iter),
        freqs_hz.len() >= 1,
        h.len() >= 1,
    ensures
        ({
            &&& step matches FitStep::Continue { fit, problem }
            &&& fit.poles@.len() % 2 == 0
            &&& fit.poles@.len() >= 2
            &&& n_poles >= 2 ==> n_poles - 1 <= fit.poles@.len() <= n_poles
            &&& n_poles < 2 ==> fit.poles@.len() == 2
            &&& fit.left >= 2
            &&& n_iter >= 2 ==> fit.left == n_iter
            &&& n_iter < 2 ==> fit.left == 2
            &&& problem.unknowns == fit.poles@.len() + 1
            &&& problem.rows == 2 * shorter(freqs_hz.len(), h.len())
            &&& problem.cutoff == T::scaled(1, -12)
        }),
{
}

/// In exact arithmetic, a pole and a residue add to the value of a model at `s` the number that,
/// times `s − p`, is the residue.
pub proof fn lemma_value_of_pole<T: Real>(
    before: VectorFitModel<T>,
    after: VectorFitModel<T>,
    omega: T,
)
    requires
        is_real_field::<T>(),
        before.poles@.len() == before.residues@.len(),
        after.poles@.len() == before.poles@.len() + 1,
        after.residues@.len() == before.residues@.len() + 1,
        after.poles@.drop_last() == before.poles@,
        after.residues@.drop_last() == before.residues@,
        after.d == before.d,
        (Cplx { re: T::nought(), im: omega }) != after.poles@.last(),
    ensures
        ({
            let s = Cplx { re: T::nought(), im: omega };
            after.value(omega).minus(before.value(omega)).times(s.minus(after.poles@.last()))
                == after.residues@.last()
        }),
{
    lemma_complex_ring::<T>();
    let zero = Cplx::<T>::nought();
    let s = Cplx { re: T::nought(), im: omega };
    let n = before.poles@.len();
    lemma_fractions_same(
        after.poles@,
        after.residues@,
        before.poles@,
        before.residues@,
        s,
        n,
    );
    let (p, r) = (after.poles@.last(), after.residues@.last());
    let d = Cplx::on_axis(after.d);
    let x = partial_fractions(before.poles@, before.residues@, s, n);
    let y = r.over(s.minus(p));
    // ((x + y) + d) − (x + d) = y
    lemma_ring(x, y, d);
    lemma_ring(y, d, zero);
    lemma_ring(x, d, y);
    let base = x.plus(d);
    lemma_ring(y, base, base.negated());
    lemma_ring(base, y, base);
    lemma_ring(base, base, base);
    lemma_ring(y, zero, zero);
    lemma_ring(y.plus(base), base, zero);
    lemma_ring(after.value(omega), before.value(omega), zero);
    assert(after.value(omega).minus(before.value(omega)) == y);
    // s − p is not zero
    if s.minus(p) == zero {
        lemma_ring(s, p, zero);
        lemma_ring(s, p.negated(), p);
        lemma_ring(p.negated(), p, zero);
        lemma_ring(p, p, zero);
        lemma_ring(s, zero, zero);
    }
    lemma_quotient(r, s.minus(p));
}

/// Only the first poles and residues matter for the sum of the first partial fractions.
proof fn lemma_fractions_same<T: Real>(
    poles: Seq<Cplx<T>>,
    residues: Seq<Cplx<T>>,
    poles2: Seq<Cplx<T>>,
    residues2: Seq<Cplx<T>>,
    s: Cplx<T>,
    n: nat,
)
    requires
        n <= poles2.len(),
        n <= residues2.len(),
        poles.len() == poles2.len() + 1,
        residues.len() == residues2.len() + 1,
        poles.drop_last() == poles2,
        residues.drop_last() == residues2,
    ensures
        partial_fractions(poles, residues, s, n) == partial_fractions(poles2, residues2, s, n),
    decreases n,
{
    if n > 0 {
        lemma_fractions_same(poles, residues, poles2, residues2, s, (n - 1) as nat);
        assert(poles.drop_last()[n - 1] == poles[n - 1]);
        assert(residues.drop_last()[n - 1] == residues[n - 1]);
    }
}

/// A model without poles is constant.
pub proof fn lemma_value_without_poles<T: Real>(model: VectorFitModel<T>, omega: T)
    requires
        is_ring::<T>(),
        model.poles@.len() == 0,
    ensures
        model.value(omega) == Cplx::on_axis(model.d),
{
    lemma_ring(model.d, T::nought(), T::nought());
    lemma_ring(T::nought(), T::nought(), T::nought());
}

/// In exact arithmetic, the last solution of a fit makes the model: at every sample the model takes
/// the value that the two rows of the problem for that sample give for the solution. So where the
/// solution satisfies both rows, the model takes the sample.
pub proof fn lemma_model_takes_solution<T: Real>(
    fit: VectorFit<T>,
    problem: LeastSquares<T>,
    solution: Seq<T>,
    step: FitStep<T>,
    k: int,
)
    requires
        is_ring::<T>(),
        forall|a: T, b: T, q: T| #[trigger] divides(a, b, q),
        fit.wf(),
        problem.fits(fit.omegas@, fit.samples@, fit.poles@),
        solution.len() == fit.poles@.len() + 1,
        fit.left == 1,
        fit.goes_on(Some(solution), step),
        0 <= k < fit.omegas@.len(),
    ensures
        ({
            let vars = problem.unknowns as nat;
            let row = |i: int|
                total(vars, |c: int| problem.matrix@[i * vars + c].times(solution[c]));
            &&& step matches FitStep::Done(model)
            &&& model.value(fit.omegas@[k]) == (Cplx { re: row(2 * k), im: row(2 * k + 1) })
            &&& row(2 * k) == problem.rhs@[2 * k] && row(2 * k + 1) == problem.rhs@[2 * k + 1]
                ==> model.value(fit.omegas@[k]) == fit.samples@[k]
        }),
{
    lemma_problem_fits_samples(fit.omegas@, fit.samples@, fit.poles@, solution, k);
    let model = step->Done_0;
    let np = fit.poles@.len();
    assert(model.residues@ == on_axis_all(solution.take(np as int)));
    assert(model.value(fit.omegas@[k]) == model_value(fit.poles@, solution, fit.omegas@[k]));
    let vars = problem.unknowns as nat;
    lemma_total_same(
        vars,
        |c: int| problem.matrix@[(2 * k) * vars + c].times(solution[c]),
        |c: int| super::fit_matrix(fit.omegas@, fit.poles@)[(2 * k) * vars + c].times(solution[c]),
    );
    lemma_total_same(
        vars,
        |c: int| problem.matrix@[(2 * k + 1) * vars + c].times(solution[c]),
        |c: int|
            super::fit_matrix(fit.omegas@, fit.poles@)[(2 * k + 1) * vars + c].times(solution[c]),
    );
}

/// A fit keeps its samples and its poles, and asks for one solution less, until it ends. Without a
/// solution the model stays what it was.
pub proof fn lemma_fit_goes_on<T: Real>(
    fit: VectorFit<T>,
    solution: Option<Seq<T>>,
    step: FitStep<T>,
)
    requires
        fit.wf(),
        fit.goes_on(solution, step),
    ensures
        step is Done <==> fit.left == 1,
        poles_of(step) == fit.poles@,
        step matches FitStep::Continue { fit: next, problem } ==> {
            &&& next.left + 1 == fit.left
            &&& next.omegas@ == fit.omegas@
            &&& next.samples@ == fit.samples@
            &&& problem.fits(fit.omegas@, fit.samples@, fit.poles@)
            &&& solution is None ==> next.residues@ == fit.residues@ && next.d == fit.d
            &&& solution matches Some(x) ==> next.d == x[fit.poles@.len() as int] && (forall|i: int|
                0 <= i < fit.poles@.len() <= x.len() ==> #[trigger] next.residues@[i] == (Cplx {
                    re: x[i],
                    im: T::nought(),
                }))
        },
        step matches FitStep::Done(model) ==> {
            &&& solution is None ==> model.residues@ == fit.residues@ && model.d == fit.d
        },
{
}

/// Until a problem is solved, the model of a fit has the residue one at every pole and no constant
/// term. Without samples there is nothing to fit, and the model is zero everywhere.
pub proof fn lemma_model_at_start<T: Real>(
    step: FitStep<T>,
    freqs_hz: Seq<T>,
    h: Seq<Cplx<T>>,
    n_poles: nat,
    n_iter: nat,
    omega: T,
)
    requires
        is_ring::<T>(),
        begins(step, freqs_hz, h, n_poles, n_iter),
    ensures
        freqs_hz.len() == 0 || h.len() == 0 ==> (step matches FitStep::Done(model)
            && model.poles@.len() == 0 && model.value(omega) == Cplx::<T>::nought()),
        freqs_hz.len() > 0 && h.len() > 0 ==> (step matches FitStep::Continue { fit, .. } && {
            &&& fit.residues@.len() == fit.poles@.len()
            &&& forall|i: int|
                0 <= i < fit.residues@.len() ==> #[trigger] fit.residues@[i] == (Cplx {
                    re: T::unit(),
                    im: T::nought(),
                })
            &&& fit.d == T::nought()
        }),
{
    if let FitStep::Done(model) = step {
        if model.poles@.len() == 0 {
            lemma_value_without_poles(model, omega);
        }
    }
}

} // verus!
