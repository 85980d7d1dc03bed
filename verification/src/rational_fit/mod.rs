//! Rational-function fitting for frequency-domain transfer functions.
//!
//! Provides [`vector_fit`], the Vector Fitting algorithm of Gustavsen & Semlyen (1999) with
//! its iteration but without pole relocation. The linear least-squares problems that it poses
//! are handed out, and a fit goes on when it is given their solution.
pub mod meaning;

use crate::complex::Cplx;
use crate::exact::{
    is_ring, lemma_ring, lemma_times_negative, lemma_times_nought, lemma_total_same, total,
};
use crate::index::lemma_position;
use crate::scalar::{Field, Real};
use crate::vector::filled;
use vstd::prelude::*;

verus! {

/// A rational-function model in pole-residue form: `H(s) = Σ R_k/(s−p_k) + d`.
#[derive(Clone, Debug)]
pub struct VectorFitModel<T> {
    /// The poles `p_k`.
    pub poles: Vec<Cplx<T>>,
    /// The residues `R_k`.
    pub residues: Vec<Cplx<T>>,
    /// The constant term.
    pub d: T,
}

/// The sum of the first `n` partial fractions at `s`, added up from the left.
pub open spec fn partial_fractions<T: Real>(
    poles: Seq<Cplx<T>>,
    residues: Seq<Cplx<T>>,
    s: Cplx<T>,
    n: nat,
) -> Cplx<T>
    decreases n,
{
    if n == 0 {
        Cplx::<T>::nought()
    } else {
        partial_fractions(poles, residues, s, (n - 1) as nat).plus(
            residues[n - 1].over(s.minus(poles[n - 1])),
        )
    }
}

/// The smaller of two lengths.
pub open spec fn shorter(a: nat, b: nat) -> nat {
    if a <= b {
        a
    } else {
        b
    }
}

impl<T: Real> VectorFitModel<T> {
    /// The value of the model at the angular frequency `omega`.
    pub open spec fn value(self, omega: T) -> Cplx<T> {
        partial_fractions(
            self.poles@,
            self.residues@,
            Cplx { re: T::nought(), im: omega },
            shorter(self.poles@.len(), self.residues@.len()),
        ).plus(Cplx::on_axis(self.d))
    }

    /// The value of the model at the angular frequency `omega`.
    pub fn eval(&self, omega: T) -> (r: Cplx<T>)
        ensures
            r == self.value(omega),
    {
        let s = Cplx::new(T::zero(), omega);
        let n = if self.poles.len() <= self.residues.len() {
            self.poles.len()
        } else {
            self.residues.len()
        };
        let mut sum = Cplx::<T>::zero();
        let mut k: usize = 0;
        while k < n
            invariant
                k <= n,
                n == shorter(self.poles@.len(), self.residues@.len()),
                sum == partial_fractions(self.poles@, self.residues@, s, k as nat),
            decreases n - k,
        {
            sum = sum.add(self.residues[k].div(s.sub(self.poles[k])));
            k = k + 1;
        }
        sum.add(Cplx::from_real(self.d))
    }

    /// The number of poles.
    pub fn n_poles(&self) -> (r: usize)
        ensures
            r == self.poles@.len(),
    {
        self.poles.len()
    }
}

/// A linear least-squares problem: minimise `‖matrix·x − rhs‖`, with singular values up to
/// `cutoff` taken as zero.
pub struct LeastSquares<T> {
    /// The matrix, stored row after row.
    pub matrix: Vec<T>,
    /// The right-hand side.
    pub rhs: Vec<T>,
    /// The number of rows.
    pub rows: usize,
    /// The number of unknowns.
    pub unknowns: usize,
    /// The cutoff for singular values.
    pub cutoff: T,
}

/// A fit that waits for the solution of its least-squares problem.
pub struct VectorFit<T> {
    /// The angular frequencies of the samples.
    pub omegas: Vec<T>,
    /// The samples.
    pub samples: Vec<Cplx<T>>,
    /// The poles.
    pub poles: Vec<Cplx<T>>,
    /// The residues so far.
    pub residues: Vec<Cplx<T>>,
    /// The constant term so far.
    pub d: T,
    /// The solutions that are still awaited.
    pub left: usize,
}

/// What a fit does next.
pub enum FitStep<T> {
    /// It waits for the solution of a least-squares problem.
    Continue {
        /// The fit.
        fit: VectorFit<T>,
        /// The problem.
        problem: LeastSquares<T>,
    },
    /// It has ended.
    Done(VectorFitModel<T>),
}

/// The number of poles that is used for a requested one: even, and at least two.
pub open spec fn pole_count(n_poles: nat) -> nat {
    if n_poles < 2 {
        2
    } else {
        (n_poles - n_poles % 2) as nat
    }
}

/// The number of iterations that is used for a requested one: at least two.
pub open spec fn iteration_count(n_iter: nat) -> nat {
    if n_iter < 2 {
        2
    } else {
        n_iter
    }
}

/// The angular frequency of `f` Hertz.
pub open spec fn angular<T: Real>(f: T) -> T {
    T::scaled(2, 0).times(T::half_turn()).times(f)
}

/// The angular frequencies of the first `n` entries.
pub open spec fn angulars<T: Real>(freqs: Seq<T>, n: nat) -> Seq<T> {
    Seq::new(n, |i: int| angular(freqs[i]))
}

/// The frequency of pole pair `k` of `pairs`: spaced logarithmically from `w_min` to `w_max`,
/// or the middle of the two where there is one pair only.
pub open spec fn pole_frequency<T: Real>(w_min: T, w_max: T, k: nat, pairs: nat) -> T {
    if pairs > 1 {
        w_min.times(w_max.over(w_min).raised(T::whole(k).over(T::whole((pairs - 1) as nat))))
    } else {
        w_min.plus(w_max).over(T::scaled(2, 0))
    }
}

/// The starting poles: lightly damped conjugate pairs.
pub open spec fn starting_poles<T: Real>(w_min: T, w_max: T, pairs: nat) -> Seq<Cplx<T>> {
    Seq::new(
        2 * pairs,
        |i: int|
            {
                let w = pole_frequency(w_min, w_max, (i / 2) as nat, pairs);
                Cplx {
                    re: w.negated().times(T::scaled(1, -2)),
                    im: if i % 2 == 0 {
                        w
                    } else {
                        w.negated()
                    },
                }
            },
    )
}

/// The basis function `1/(s − p)` at `s = i·omega`.
pub open spec fn basis_value<T: Real>(omega: T, pole: Cplx<T>) -> Cplx<T> {
    Cplx::on_axis(T::unit()).over(Cplx { re: T::nought(), im: omega }.minus(pole))
}

/// The matrix of the least-squares problem: for every sample a row with the real parts of the
/// basis functions and a row with the imaginary parts; the last column belongs to the constant
/// term.
pub open spec fn fit_matrix<T: Real>(omegas: Seq<T>, poles: Seq<Cplx<T>>) -> Seq<T> {
    let vars = poles.len() + 1;
    Seq::new(
        (2 * omegas.len()) * vars,
        |q: int|
            {
                let (row, col) = (q / vars as int, q % vars as int);
                if col == poles.len() {
                    if row % 2 == 0 {
                        T::unit()
                    } else {
                        T::nought()
                    }
                } else if row % 2 == 0 {
                    basis_value(omegas[row / 2], poles[col]).re
                } else {
                    basis_value(omegas[row / 2], poles[col]).im
                }
            },
    )
}

/// The right-hand side of the least-squares problem: the real and imaginary parts of the
/// samples, alternating.
pub open spec fn fit_rhs<T: Real>(samples: Seq<Cplx<T>>) -> Seq<T> {
    Seq::new(
        2 * samples.len(),
        |row: int|
            if row % 2 == 0 {
                samples[row / 2].re
            } else {
                samples[row / 2].im
            },
    )
}

/// Real numbers as complex ones.
pub open spec fn on_axis_all<T: Real>(values: Seq<T>) -> Seq<Cplx<T>> {
    Seq::new(values.len(), |i: int| Cplx::on_axis(values[i]))
}

impl<T: Real> LeastSquares<T> {
    /// The problem is that of fitting the samples with the poles.
    pub open spec fn fits(self, omegas: Seq<T>, samples: Seq<Cplx<T>>, poles: Seq<Cplx<T>>) -> bool {
        &&& self.matrix@ == fit_matrix(omegas, poles)
        &&& self.rhs@ == fit_rhs(samples)
        &&& self.rows == 2 * omegas.len()
        &&& self.unknowns == poles.len() + 1
        &&& self.cutoff == T::scaled(1, -12)
    }
}

impl<T: Real> VectorFit<T> {
    /// There are samples, and the least-squares problem fits into memory.
    pub open spec fn wf(self) -> bool {
        &&& 1 <= self.omegas@.len() == self.samples@.len()
        &&& self.residues@.len() == self.poles@.len()
        &&& (2 * self.omegas@.len()) * (self.poles@.len() + 1) <= usize::MAX
        &&& self.left >= 1
    }

    /// Poses the least-squares problem of the fit.
    fn pose(&self) -> (problem: LeastSquares<T>)
        requires
            self.wf(),
        ensures
            problem.fits(self.omegas@, self.samples@, self.poles@),
    {
        let n = self.omegas.len();
        let np = self.poles.len();
        assert(2 * n <= (2 * n) * (np + 1) && np + 1 <= (2 * n) * (np + 1)) by (nonlinear_arith)
            requires
                n >= 1,
                np >= 0,
        ;
        let rows = 2 * n;
        let vars = np + 1;
        let one = Cplx::from_real(T::one());
        let mut matrix: Vec<T> = Vec::new();
        let mut rhs: Vec<T> = Vec::new();
        let ghost want_m = fit_matrix(self.omegas@, self.poles@);
        let ghost want_r = fit_rhs(self.samples@);
        let mut row: usize = 0;
        while row < rows
            invariant
                row <= rows,
                rows == 2 * n,
                vars == np + 1,
                rows * vars <= usize::MAX,
                n == self.omegas@.len(),
                n == self.samples@.len(),
                np == self.poles@.len(),
                one == Cplx::on_axis(T::unit()),
                want_m == fit_matrix(self.omegas@, self.poles@),
                want_r == fit_rhs(self.samples@),
                rhs@.len() == row,
                forall|q: int| 0 <= q < row ==> rhs@[q] == want_r[q],
                matrix@.len() == row * vars,
                forall|q: int| 0 <= q < row * vars ==> matrix@[q] == want_m[q],
            decreases rows - row,
        {
            let ki = row / 2;
            let real_part = row % 2 == 0;
            let s = Cplx::new(T::zero(), self.omegas[ki]);
            if real_part {
                rhs.push(self.samples[ki].re);
            } else {
                rhs.push(self.samples[ki].im);
            }
            assert(row * vars + vars == (row + 1) * vars) by (nonlinear_arith);
            assert((row + 1) * vars <= rows * vars) by (nonlinear_arith)
                requires
                    row + 1 <= rows,
            ;
            let mut col: usize = 0;
            while col < vars
                invariant
                    row < rows,
                    col <= vars,
                    rows == 2 * n,
                    vars == np + 1,
                    n == self.omegas@.len(),
                    np == self.poles@.len(),
                    ki == row / 2,
                    real_part == (row % 2 == 0),
                    s == (Cplx { re: T::nought(), im: self.omegas@[ki as int] }),
                    one == Cplx::on_axis(T::unit()),
                    row * vars + vars == (row + 1) * vars,
                    (row + 1) * vars <= rows * vars,
                    want_m == fit_matrix(self.omegas@, self.poles@),
                    matrix@.len() == row * vars + col,
                    forall|q: int| 0 <= q < row * vars + col ==> matrix@[q] == want_m[q],
                decreases vars - col,
            {
                proof {
                    lemma_position(row as int, col as int, rows as int, vars as int);
                }
                if col == np {
                    if real_part {
                        matrix.push(T::one());
                    } else {
                        matrix.push(T::zero());
                    }
                } else {
                    let basis = one.div(s.sub(self.poles[col]));
                    if real_part {
                        matrix.push(basis.re);
                    } else {
                        matrix.push(basis.im);
                    }
                }
                col = col + 1;
            }
            row = row + 1;
        }
        assert(matrix@ =~= want_m);
        assert(rhs@ =~= want_r);
        LeastSquares { matrix, rhs, rows, unknowns: vars, cutoff: T::decimal(1, -12) }
    }

    /// The model after the awaited solution, where there is one, is entered.
    pub open spec fn updated(self, solution: Option<Seq<T>>) -> (Seq<Cplx<T>>, T) {
        match solution {
            Some(x) => (
                on_axis_all(x.take(self.poles@.len() as int)),
                x[self.poles@.len() as int],
            ),
            None => (self.residues@, self.d),
        }
    }

    /// How a fit goes on with a solution: it ends with the model that the solution gives, or poses
    /// the problem again.
    pub open spec fn goes_on(self, solution: Option<Seq<T>>, step: FitStep<T>) -> bool {
        let (residues, d) = self.updated(solution);
        if self.left == 1 {
            &&& step matches FitStep::Done(model)
            &&& model.poles@ == self.poles@
            &&& model.residues@ == residues
            &&& model.d == d
        } else {
            &&& step matches FitStep::Continue { fit, problem }
            &&& fit.omegas == self.omegas
            &&& fit.samples == self.samples
            &&& fit.poles == self.poles
            &&& fit.residues@ == residues
            &&& fit.d == d
            &&& fit.left == self.left - 1
            &&& fit.wf()
            &&& problem.fits(self.omegas@, self.samples@, self.poles@)
        }
    }

    /// Goes on with the solution of the least-squares problem, or without one where it could
    /// not be found: the residues and the constant term are taken from it, and the problem is
    /// posed again until the iterations are used up.
    pub fn resume(self, solution: Option<Vec<T>>) -> (step: FitStep<T>)
        requires
            self.wf(),
            solution matches Some(x) ==> x@.len() == self.poles@.len() + 1,
        ensures
            self.goes_on(
                match solution {
                    Some(x) => Some(x@),
                    None => None,
                },
                step,
            ),
    {
        let np = self.poles.len();
        let (residues, d) = match solution {
            Some(x) => {
                let mut residues: Vec<Cplx<T>> = Vec::new();
                let ghost want = on_axis_all(x@.take(np as int));
                let mut k: usize = 0;
                while k < np
                    invariant
                        k <= np,
                        x@.len() == np + 1,
                        want == on_axis_all(x@.take(np as int)),
                        residues@.len() == k,
                        forall|c: int| 0 <= c < k ==> residues@[c] == want[c],
                    decreases np - k,
                {
                    residues.push(Cplx::from_real(x[k]));
                    k = k + 1;
                }
                assert(residues@ =~= want);
                (residues, x[np])
            },
            None => (self.residues, self.d),
        };
        let left = self.left;
        if left == 1 {
            return FitStep::Done(VectorFitModel { poles: self.poles, residues, d });
        }
        let fit = VectorFit {
            omegas: self.omegas,
            samples: self.samples,
            poles: self.poles,
            residues,
            d,
            left: left - 1,
        };
        let problem = fit.pose();
        FitStep::Continue { fit, problem }
    }
}

/// How a fit starts: without samples it ends with an empty model; else it poses the least-squares
/// problem of fitting the samples with the starting poles.
pub open spec fn begins<T: Real>(
    step: FitStep<T>,
    freqs_hz: Seq<T>,
    h: Seq<Cplx<T>>,
    n_poles: nat,
    n_iter: nat,
) -> bool {
    let n = shorter(freqs_hz.len(), h.len());
    let np = pole_count(n_poles);
    if n == 0 {
        &&& step matches FitStep::Done(model)
        &&& model.poles@ == Seq::<Cplx<T>>::empty()
        &&& model.residues@ == Seq::<Cplx<T>>::empty()
        &&& model.d == T::nought()
    } else {
        let omegas = angulars(freqs_hz, n);
        &&& step matches FitStep::Continue { fit, problem }
        &&& fit.omegas@ == omegas
        &&& fit.samples@ == h.take(n as int)
        &&& fit.poles@ == starting_poles(omegas[0], omegas[n - 1], np / 2)
        &&& fit.poles@.len() == np
        &&& fit.residues@ == Seq::new(np, |i: int| Cplx::on_axis(T::unit()))
        &&& fit.d == T::nought()
        &&& fit.left == iteration_count(n_iter)
        &&& fit.wf()
        &&& problem.fits(fit.omegas@, fit.samples@, fit.poles@)
    }
}

/// Starts to fit a frequency-domain transfer function, given by its samples `h` at the
/// frequencies `freqs_hz`, with a model of about `n_poles` poles in about `n_iter` iterations.
/// Without samples the model is empty.
pub fn vector_fit<T: Real>(freqs_hz: &[T], h: &[Cplx<T>], n_poles: usize, n_iter: usize) -> (step:
    FitStep<T>)
    requires
        (2 * shorter(freqs_hz@.len(), h@.len())) * (pole_count(n_poles as nat) + 1) <= usize::MAX,
    ensures
        begins(step, freqs_hz@, h@, n_poles as nat, n_iter as nat),
{
    if freqs_hz.len() == 0 || h.len() == 0 {
        return FitStep::Done(
            VectorFitModel { poles: Vec::new(), residues: Vec::new(), d: T::zero() },
        );
    }
    let n = if freqs_hz.len() <= h.len() {
        freqs_hz.len()
    } else {
        h.len()
    };
    let np = if n_poles < 2 {
        2
    } else {
        n_poles - n_poles % 2
    };
    let mut omegas: Vec<T> = Vec::new();
    let mut samples: Vec<Cplx<T>> = Vec::new();
    let two = T::decimal(2, 0);
    let mut i: usize = 0;
    while i < n
        invariant
            i <= n,
            n <= freqs_hz@.len(),
            n <= h@.len(),
            two == T::scaled(2, 0),
            omegas@.len() == i,
            samples@.len() == i,
            forall|c: int| 0 <= c < i ==> omegas@[c] == angular(freqs_hz@[c]),
            forall|c: int| 0 <= c < i ==> samples@[c] == h@[c],
        decreases n - i,
    {
        omegas.push(two.mul(T::pi()).mul(freqs_hz[i]));
        samples.push(h[i]);
        i = i + 1;
    }
    assert(omegas@ =~= angulars(freqs_hz@, n as nat));
    assert(samples@ =~= h@.take(n as int));
    let w_min = omegas[0];
    let w_max = omegas[n - 1];
    let pairs = np / 2;
    let mut poles: Vec<Cplx<T>> = Vec::new();
    let ghost want = starting_poles(w_min, w_max, pairs as nat);
    let mut k: usize = 0;
    while k < pairs
        invariant
            k <= pairs,
            two == T::scaled(2, 0),
            want == starting_poles(w_min, w_max, pairs as nat),
            poles@.len() == 2 * k,
            forall|c: int| 0 <= c < 2 * k ==> poles@[c] == want[c],
        decreases pairs - k,
    {
        let w = if pairs > 1 {
            w_min.mul(
                w_max.div(w_min).powf(T::from_usize(k).div(T::from_usize(pairs - 1))),
            )
        } else {
            w_min.add(w_max).div(two)
        };
        let re = w.neg().mul(T::decimal(1, -2));
        assert((2 * k) / 2 == k && (2 * k + 1) / 2 == k);
        poles.push(Cplx::new(re, w));
        poles.push(Cplx::new(re, w.neg()));
        k = k + 1;
    }
    assert(poles@ =~= want);
    let residues = filled(np, Cplx::from_real(T::one()));
    let fit = VectorFit {
        omegas,
        samples,
        poles,
        residues,
        d: T::zero(),
        left: if n_iter < 2 {
            2
        } else {
            n_iter
        },
    };
    let problem = fit.pose();
    FitStep::Continue { fit, problem }
}

/// The poles come in conjugate pairs, of which each is damped as the other.
pub proof fn lemma_conjugate_pairs<T: Real>(w_min: T, w_max: T, pairs: nat, k: int)
    requires
        0 <= k < pairs,
    ensures
        starting_poles(w_min, w_max, pairs)[2 * k + 1] == starting_poles(w_min, w_max, pairs)[2
            * k].conjugate(),
{
    assert((2 * k) / 2 == k && (2 * k + 1) / 2 == k);
}

/// The last solution decides: whatever came before it, two fits with as many poles end with the
/// same residues and the same constant term.
pub proof fn lemma_last_solution_decides<T: Real>(
    first: VectorFit<T>,
    second: VectorFit<T>,
    solution: Seq<T>,
)
    requires
        first.poles@.len() == second.poles@.len(),
    ensures
        first.updated(Some(solution)) == second.updated(Some(solution)),
{
}

/// The number of poles is even and at least two, and at most one less than requested. There are at
/// least two iterations.
pub proof fn lemma_counts(n_poles: nat, n_iter: nat)
    ensures
        pole_count(n_poles) >= 2,
        pole_count(n_poles) % 2 == 0,
        n_poles >= 2 ==> n_poles - 1 <= pole_count(n_poles) <= n_poles,
        iteration_count(n_iter) >= 2,
        n_iter >= 2 ==> iteration_count(n_iter) == n_iter,
{
}

/// Division by `q` goes with multiplication.
pub open spec fn divides<T: Real>(a: T, b: T, q: T) -> bool {
    a.times(b).over(q) == a.times(b.over(q))
}

/// The value at `s = i·omega` of the model with the given poles whose residues and constant term are
/// the real numbers `x`.
pub open spec fn model_value<T: Real>(poles: Seq<Cplx<T>>, x: Seq<T>, omega: T) -> Cplx<T> {
    let np = poles.len();
    partial_fractions(
        poles,
        on_axis_all(x.take(np as int)),
        Cplx { re: T::nought(), im: omega },
        np,
    ).plus(Cplx::on_axis(x[np as int]))
}

/// A real residue over a difference is the residue times the basis function.
proof fn lemma_real_residue<T: Real>(r: T, omega: T, pole: Cplx<T>)
    requires
        is_ring::<T>(),
        forall|a: T, b: T, q: T| #[trigger] divides(a, b, q),
    ensures
        ({
            let basis = basis_value(omega, pole);
            Cplx::on_axis(r).over(Cplx { re: T::nought(), im: omega }.minus(pole)) == (Cplx {
                re: r.times(basis.re),
                im: r.times(basis.im),
            })
        }),
{
    let (zero, one) = (T::nought(), T::unit());
    let z = Cplx { re: zero, im: omega }.minus(pole);
    let q = z.square_norm();
    lemma_times_nought(z.re);
    lemma_times_nought(z.im);
    lemma_ring(z.re, zero, zero);
    lemma_ring(z.im, one, zero);
    lemma_ring(r.times(z.re), zero, zero);
    lemma_ring(zero, r.times(z.im), zero);
    lemma_ring(zero, z.im, zero);
    lemma_ring(z.im.negated(), zero, zero);
    lemma_ring(r.times(z.im).negated(), zero, zero);
    lemma_times_negative(r, z.im);
    assert(divides(r, z.re, q));
    assert(divides(r, z.im.negated(), q));
}

/// The sum of partial fractions with real residues, part by part.
proof fn lemma_real_fractions<T: Real>(poles: Seq<Cplx<T>>, x: Seq<T>, omega: T, n: nat)
    requires
        is_ring::<T>(),
        forall|a: T, b: T, q: T| #[trigger] divides(a, b, q),
        n <= poles.len() < x.len(),
    ensures
        ({
            let sum = partial_fractions(
                poles,
                on_axis_all(x.take(poles.len() as int)),
                Cplx { re: T::nought(), im: omega },
                n,
            );
            &&& sum.re == total(n, |c: int| basis_value(omega, poles[c]).re.times(x[c]))
            &&& sum.im == total(n, |c: int| basis_value(omega, poles[c]).im.times(x[c]))
        }),
    decreases n,
{
    if n > 0 {
        let less = (n - 1) as nat;
        lemma_real_fractions(poles, x, omega, less);
        lemma_real_residue(x[n - 1], omega, poles[n - 1]);
        let basis = basis_value(omega, poles[n - 1]);
        lemma_ring(x[n - 1], basis.re, basis.re);
        lemma_ring(x[n - 1], basis.im, basis.im);
    }
}

/// In exact arithmetic the least-squares problem is that of fitting the samples: the two rows of the
/// matrix that belong to sample `k`, times the unknowns, are the real and the imaginary part of the
/// value of the model at that sample, and the right-hand side there is the sample.
pub proof fn lemma_problem_fits_samples<T: Real>(
    omegas: Seq<T>,
    samples: Seq<Cplx<T>>,
    poles: Seq<Cplx<T>>,
    x: Seq<T>,
    k: int,
)
    requires
        is_ring::<T>(),
        forall|a: T, b: T, q: T| #[trigger] divides(a, b, q),
        omegas.len() == samples.len(),
        x.len() == poles.len() + 1,
        0 <= k < omegas.len(),
    ensures
        ({
            let vars = poles.len() + 1;
            let matrix = fit_matrix(omegas, poles);
            let value = model_value(poles, x, omegas[k]);
            &&& total(vars, |c: int| matrix[(2 * k) * vars + c].times(x[c])) == value.re
            &&& total(vars, |c: int| matrix[(2 * k + 1) * vars + c].times(x[c])) == value.im
            &&& fit_rhs(samples)[2 * k] == samples[k].re
            &&& fit_rhs(samples)[2 * k + 1] == samples[k].im
        }),
{
    let np = poles.len();
    let vars = np + 1;
    let matrix = fit_matrix(omegas, poles);
    let omega = omegas[k];
    let d = x[np as int];
    let (upper, lower) = (
        |c: int| matrix[(2 * k) * vars + c].times(x[c]),
        |c: int| matrix[(2 * k + 1) * vars + c].times(x[c]),
    );
    let (re, im) = (
        |c: int| basis_value(omega, poles[c]).re.times(x[c]),
        |c: int| basis_value(omega, poles[c]).im.times(x[c]),
    );
    let h = (2 * omegas.len()) as int;
    assert forall|c: int| 0 <= c < np implies #[trigger] upper(c) == re(c) by {
        lemma_position(2 * k, c, h, vars as int);
    }
    assert forall|c: int| 0 <= c < np implies #[trigger] lower(c) == im(c) by {
        lemma_position(2 * k + 1, c, h, vars as int);
    }
    lemma_total_same(np, upper, re);
    lemma_total_same(np, lower, im);
    lemma_position(2 * k, np as int, h, vars as int);
    lemma_position(2 * k + 1, np as int, h, vars as int);
    lemma_ring(d, T::unit(), d);
    lemma_times_nought(d);
    lemma_real_fractions(poles, x, omega, np);
    assert(upper(np as int) == d);
    assert(lower(np as int) == T::nought());
}

} // verus!
