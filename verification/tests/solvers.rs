//! The solvers on double-precision numbers, with `nalgebra` for the dense decompositions.
use linger::bttb::{bttb_matvec, fft2d};
use linger::complex::Cplx;
use linger::eigen::ame::{AmeConfig, AmeResult, AmeSolver};
use linger::eigen::block::{
    gram_sub, index_range, residual_vec, scatter, symmetrize, transpose, vecs_combine,
};
use linger::eigen::dense::{chol_upper_inv, dense_symm_eig_gen, PencilOutcome};
use linger::eigen::lobpcg::{max_residual, Lobpcg, Reply, Request, Stage, Step};
use linger::eigen::{EigenParams, EigenResult, EigenWhich};
use linger::error::SolverError;
use linger::fft::fft;
use linger::iterative::complex_gmres::complex_givens;
use linger::iterative::complex_lgmres::{
    apply_givens_seq, back_substitute, ComplexLgmres, ComplexLgmresWorkspace,
};
use linger::operator::{LinearOperator, Preconditioner};
use linger::order::sort_indices;
use linger::rational_fit::{vector_fit, FitStep, LeastSquares, VectorFit, VectorFitModel};
use linger::scalar::{Field, Real, Scalar};
use linger::sparse::{CooMatrix, CsrMatrix};
use linger::vector::{complex_norm, dot, inner, DenseVec};
use nalgebra::{DMatrix, DVector, SymmetricEigen};
use std::f64::consts::PI;

/// A double-precision number.
#[derive(Clone, Copy, Debug, PartialEq, PartialOrd)]
struct F(f64);

impl Field for F {
    fn lemma_commutes(_a: Self, _b: Self) {}

    fn zero() -> Self {
        F(0.0)
    }
    fn one() -> Self {
        F(1.0)
    }
    fn add(self, rhs: Self) -> Self {
        F(self.0 + rhs.0)
    }
    fn sub(self, rhs: Self) -> Self {
        F(self.0 - rhs.0)
    }
    fn mul(self, rhs: Self) -> Self {
        F(self.0 * rhs.0)
    }
    fn div(self, rhs: Self) -> Self {
        F(self.0 / rhs.0)
    }
    fn neg(self) -> Self {
        F(-self.0)
    }
}

impl Real for F {
    fn lt(self, rhs: Self) -> bool {
        self.0 < rhs.0
    }
    fn le(self, rhs: Self) -> bool {
        self.0 <= rhs.0
    }
    fn abs(self) -> Self {
        F(self.0.abs())
    }
    fn max(self, rhs: Self) -> Self {
        F(self.0.max(rhs.0))
    }
    fn sqrt(self) -> Self {
        F(self.0.sqrt())
    }
    fn hypot(self, rhs: Self) -> Self {
        F(self.0.hypot(rhs.0))
    }
    fn powf(self, exponent: Self) -> Self {
        F(self.0.powf(exponent.0))
    }
    fn sin(self) -> Self {
        F(self.0.sin())
    }
    fn cos(self) -> Self {
        F(self.0.cos())
    }
    fn pi() -> Self {
        F(PI)
    }
    fn epsilon() -> Self {
        F(f64::EPSILON)
    }
    fn infinity() -> Self {
        F(f64::INFINITY)
    }
    fn from_usize(count: usize) -> Self {
        F(count as f64)
    }
    fn decimal(digits: i64, exponent: i32) -> Self {
        F(format!("{digits}e{exponent}").parse::<f64>().unwrap())
    }
}

impl Scalar for F {
    type Wide = F;

    fn to_wide(self) -> Option<F> {
        Some(self)
    }
    fn from_wide(wide: F) -> Self {
        wide
    }
}

type C = Cplx<F>;

fn c(re: f64, im: f64) -> C {
    Cplx { re: F(re), im: F(im) }
}

/// The distance of two complex numbers.
fn apart(a: C, b: C) -> f64 {
    a.sub(b).norm().0
}

fn reals(values: &[f64]) -> Vec<F> {
    values.iter().map(|&v| F(v)).collect()
}

fn vector(values: &[f64]) -> DenseVec<F> {
    DenseVec { data: reals(values) }
}

fn entries(v: &DenseVec<F>) -> Vec<f64> {
    v.data.iter().map(|e| e.0).collect()
}

fn plain(v: &[F]) -> Vec<f64> {
    v.iter().map(|e| e.0).collect()
}

fn matrix(rows: usize, cols: usize, stored: &[F]) -> DMatrix<f64> {
    DMatrix::from_fn(rows, cols, |r, c| stored[r * cols + c].0)
}

fn stored(m: &DMatrix<f64>) -> Vec<F> {
    let (rows, cols) = m.shape();
    (0..rows * cols).map(|p| F(m[(p / cols, p % cols)])).collect()
}

/// The inverse of the upper Cholesky factor.
fn inverse_factor(m: &[F], size: usize) -> Option<Vec<F>> {
    let l = matrix(size, size, m).cholesky()?.l();
    Some(stored(&l.transpose().try_inverse()?))
}

/// The eigenpairs of a pencil.
fn pencil(a: &[F], b: &[F], size: usize) -> PencilOutcome<F> {
    let chol = match matrix(size, size, b).cholesky() {
        Some(chol) => chol,
        None => return PencilOutcome::NotPositiveDefinite,
    };
    let li = match chol.l().try_inverse() {
        Some(li) => li,
        None => return PencilOutcome::SingularFactor,
    };
    let se = SymmetricEigen::new(&li * matrix(size, size, a) * li.transpose());
    PencilOutcome::Pairs {
        values: se.eigenvalues.iter().map(|&v| F(v)).collect(),
        vectors: stored(&(li.transpose() * &se.eigenvectors)),
    }
}

fn reply(request: Request<F>) -> Reply<F> {
    match request {
        Request::Factor { matrix, size } => {
            assert_eq!(matrix.len(), size * size);
            Reply::Factor(inverse_factor(&matrix, size))
        }
        Request::Pencil { a, b, size } => {
            for i in 0..size {
                for j in 0..size {
                    assert_eq!(a[i * size + j], a[j * size + i]);
                    assert_eq!(b[i * size + j], b[j * size + i]);
                }
            }
            Reply::Pencil(pencil(&a, &b, size))
        }
    }
}

/// Numbers between -1 and 1 that look random.
fn fill_random(n: usize, seed: u64) -> DenseVec<F> {
    let mut state = seed | 1;
    let data = (0..n)
        .map(|_| {
            state ^= state << 13;
            state ^= state >> 7;
            state ^= state << 17;
            F((state >> 11) as f64 / (1u64 << 52) as f64 - 1.0)
        })
        .collect();
    DenseVec { data }
}

fn initial(solver: &Lobpcg<F>, k: usize, n: usize) -> Vec<DenseVec<F>> {
    (0..k).map(|j| fill_random(n, solver.column_seed(j))).collect()
}

type Outcome = Result<EigenResult<F>, SolverError<F>>;

/// Runs a solver to its end.
fn solve<Op: LinearOperator<F>>(solver: &Lobpcg<F>, a: &Op, params: &EigenParams<F>) -> Outcome {
    let start = initial(solver, params.n_eigenvalues, a.nrows());
    run(solver, a, params, solver.solve(a, params, start))
}

fn run<Op: LinearOperator<F>>(
    solver: &Lobpcg<F>,
    a: &Op,
    params: &EigenParams<F>,
    first: Step<F>,
) -> Outcome {
    let mut step = first;
    let mut replies = 0;
    loop {
        match step {
            Step::Continue { state, request } => {
                replies += 1;
                assert!(replies <= 3 * params.max_iter + 2);
                step = solver.resume(a, params, state, reply(request));
            }
            Step::Done(result) => return result,
        }
    }
}

fn diagonal_matrix(values: &[f64]) -> CsrMatrix<F> {
    let mut coo = CooMatrix::new(values.len(), values.len());
    for (i, &v) in values.iter().enumerate() {
        coo.push(i, i, F(v));
    }
    CsrMatrix::from_coo(&coo)
}

fn laplacian_1d(n: usize) -> CsrMatrix<F> {
    let mut coo = CooMatrix::new(n, n);
    for i in 0..n {
        coo.push(i, i, F(2.0));
        if i > 0 {
            coo.push(i, i - 1, F(-1.0));
        }
        if i < n - 1 {
            coo.push(i, i + 1, F(-1.0));
        }
    }
    CsrMatrix::from_coo(&coo)
}

// Fourier transforms and BTTB products.

#[test]
fn fft_roundtrip() {
    let n = 8;
    let mut b: Vec<C> = (0..n).map(|i| c(i as f64, 0.0)).collect();
    let o = b.clone();
    fft(&mut b, false);
    fft(&mut b, true);
    for v in b.iter_mut() {
        *v = v.mul(c(1.0 / n as f64, 0.0));
    }
    let e: f64 = o.iter().zip(b.iter()).map(|(&a, &b)| apart(a, b)).sum();
    assert!(e < 1e-10, "fft roundtrip err={:.6e}", e);
}

#[test]
fn identity_kernel() {
    let nx = 4;
    let ny = 4;
    let mut k = vec![c(0.0, 0.0); nx * ny];
    k[0] = c(1.0, 0.0);
    let x: Vec<C> = (0..nx * ny).map(|i| c(i as f64, 0.0)).collect();
    let y = bttb_matvec(&k, &x, nx, ny);
    let e: f64 = x.iter().zip(y.iter()).map(|(&a, &b)| apart(a, b)).sum();
    assert!(e < 1e-10, "id err={:.6e}", e);
}

#[test]
fn fft_of_four() {
    let mut b = vec![c(1.0, 0.0), c(2.0, 0.0), c(3.0, 0.0), c(4.0, 0.0)];
    fft(&mut b, false);
    let want = [c(10.0, 0.0), c(-2.0, 2.0), c(-2.0, 0.0), c(-2.0, -2.0)];
    for p in 0..4 {
        assert!(apart(b[p], want[p]) < 1e-14);
    }
    let mut b = vec![c(0.0, 0.0), c(1.0, 0.0), c(0.0, 0.0), c(0.0, 0.0)];
    fft(&mut b, true);
    let want = [c(1.0, 0.0), c(0.0, 1.0), c(-1.0, 0.0), c(0.0, -1.0)];
    for p in 0..4 {
        assert!(apart(b[p], want[p]) < 1e-15);
    }
}

#[test]
fn fft_is_the_discrete_transform() {
    let n = 16;
    let s: Vec<C> = (0..n).map(|i| c((i * i % 7) as f64, (i % 5) as f64 - 1.0)).collect();
    let mut b = s.clone();
    fft(&mut b, false);
    for p in 0..n {
        let mut sum = c(0.0, 0.0);
        for (a, &v) in s.iter().enumerate() {
            let angle = -2.0 * PI * (a * p) as f64 / n as f64;
            sum = sum.add(v.mul(c(angle.cos(), angle.sin())));
        }
        assert!(apart(b[p], sum) < 1e-12);
    }
}

#[test]
fn fft_of_short_buffers() {
    let mut none: Vec<C> = Vec::new();
    fft(&mut none, false);
    assert!(none.is_empty());
    let mut one = vec![c(3.0, -1.0)];
    fft(&mut one, true);
    assert_eq!((one[0].re, one[0].im), (F(3.0), F(-1.0)));
}

#[test]
fn fft2d_of_a_small_matrix() {
    // Two rows of four.
    let (nx, ny) = (4, 2);
    let s: Vec<C> = (0..8).map(|i| c((i + 1) as f64, 0.0)).collect();
    let mut b = s.clone();
    fft2d(&mut b, nx, ny, false);
    let want = [
        c(36.0, 0.0),
        c(-4.0, 4.0),
        c(-4.0, 0.0),
        c(-4.0, -4.0),
        c(-16.0, 0.0),
        c(0.0, 0.0),
        c(0.0, 0.0),
        c(0.0, 0.0),
    ];
    for p in 0..8 {
        assert!(apart(b[p], want[p]) < 1e-13);
    }
    fft2d(&mut b, nx, ny, true);
    for p in 0..8 {
        assert!(apart(b[p], s[p].scale(F(8.0))) < 1e-12);
    }
}

#[test]
fn bttb_product_is_the_product_with_the_matrix() {
    let (nx, ny) = (4, 2);
    let k: Vec<C> = (0..nx * ny).map(|i| c(1.0 / (i + 1) as f64, i as f64 / 3.0)).collect();
    let x: Vec<C> = (0..nx * ny).map(|i| c((i * 3 % 5) as f64, 2.0 - i as f64)).collect();
    let y = bttb_matvec(&k, &x, nx, ny);
    for iy in 0..ny {
        for ix in 0..nx {
            let mut sum = c(0.0, 0.0);
            for jy in 0..ny {
                for jx in 0..nx {
                    let at = iy.abs_diff(jy) * nx + ix.abs_diff(jx);
                    sum = sum.add(k[at].mul(x[jy * nx + jx]));
                }
            }
            assert!(apart(y[iy * nx + ix], sum) < 1e-12);
        }
    }
}

#[test]
fn bttb_product_of_two_entries() {
    let k = [c(2.0, 0.0), c(1.0, 0.0)];
    let x = [c(1.0, 0.0), c(10.0, 0.0)];
    let y = bttb_matvec(&k, &x, 2, 1);
    assert!(apart(y[0], c(12.0, 0.0)) < 1e-13);
    assert!(apart(y[1], c(21.0, 0.0)) < 1e-13);
    assert!(bttb_matvec::<F>(&[], &[], 0, 3).is_empty());
}

// Sparse matrices.

#[test]
fn sparse_entries_add_up() {
    let mut coo = CooMatrix::new(3, 4);
    coo.push(1, 3, F(5.0));
    coo.push(0, 2, F(1.0));
    coo.push(1, 0, F(2.0));
    coo.push(1, 3, F(-1.5));
    coo.push(0, 0, F(7.0));
    let m = CsrMatrix::from_coo(&coo);
    assert_eq!(m.nrows(), 3);
    assert_eq!(m.ncols(), 4);
    assert_eq!(m.get(1, 3), Some(F(3.5)));
    assert_eq!(m.get(1, 0), Some(F(2.0)));
    assert_eq!(m.get(1, 1), None);
    assert_eq!(m.get(2, 2), None);
    assert_eq!(plain(&m.diag()), vec![7.0, 0.0, 0.0]);
    let y = m.spmv(&reals(&[1.0, 10.0, 100.0, 1000.0]));
    assert_eq!(plain(&y), vec![107.0, 3502.0, 0.0]);
    let mut out = DenseVec::zeros(3);
    m.apply(&vector(&[1.0, 0.0, 0.0, 2.0]), &mut out);
    assert_eq!(entries(&out), vec![7.0, 9.0, 0.0]);
}

// Vectors and blocks.

#[test]
fn vector_operations() {
    let mut v = vector(&[3.0, 4.0]);
    assert_eq!(v.norm2(), F(5.0));
    v.axpy(F(2.0), &vector(&[1.0, -1.0]));
    assert_eq!(entries(&v), vec![5.0, 2.0]);
    v.scale(F(0.5));
    assert_eq!(entries(&v), vec![2.5, 1.0]);
    let mut w = DenseVec::zeros(2);
    assert_eq!(entries(&w), vec![0.0, 0.0]);
    w.copy_from(&v);
    assert_eq!(w.as_slice(), v.as_slice());
    w.fill(F(9.0));
    assert_eq!(entries(&w), vec![9.0, 9.0]);
    assert_eq!(DenseVec::from_vec(reals(&[1.0])).len(), 1);
    assert_eq!(entries(&v.duplicate()), entries(&v));
    assert_eq!(dot(&reals(&[1.0, 2.0]), &reals(&[3.0, 4.0])), F(11.0));
    let z = inner(&[c(0.0, 1.0)], &[c(2.0, 3.0)]);
    assert_eq!((z.re, z.im), (F(3.0), F(-2.0)));
    assert_eq!(complex_norm(&[c(3.0, 0.0), c(0.0, 4.0)]), F(5.0));
}

#[test]
fn block_operations() {
    let x = vec![vector(&[1.0, 0.0]), vector(&[1.0, 1.0]), vector(&[0.0, 2.0])];
    let y = vec![vector(&[2.0, 3.0]), vector(&[4.0, 5.0]), vector(&[6.0, 7.0])];
    assert_eq!(plain(&gram_sub(&x, &y, &vec![0, 2], &vec![1, 2])), vec![4.0, 6.0, 10.0, 14.0]);
    let z = vecs_combine(&x, &vec![0, 1], &reals(&[1.0, 2.0, 10.0, 20.0]), 2);
    assert_eq!(entries(&z[0]), vec![11.0, 10.0]);
    assert_eq!(entries(&z[1]), vec![22.0, 20.0]);
    // What stands after the matrix is not read.
    let z = vecs_combine(&x, &vec![2, 0], &reals(&[1.0, 0.0, 0.0, 1.0, 77.0]), 2);
    assert_eq!(entries(&z[0]), vec![0.0, 2.0]);
    assert_eq!(entries(&z[1]), vec![1.0, 0.0]);
    // Nor are columns that are not listed, whatever their length.
    let ragged = vec![vector(&[1.0, 2.0]), vector(&[7.0]), vector(&[3.0, 4.0])];
    let z = vecs_combine(&ragged, &vec![2, 0], &reals(&[1.0, 2.0]), 1);
    assert_eq!(entries(&z[0]), vec![5.0, 8.0]);
    let g = gram_sub(&ragged, &ragged, &vec![2, 0], &vec![0]);
    assert_eq!(plain(&g), vec![11.0, 5.0]);
    let none = vecs_combine(&x, &vec![], &vec![], 2);
    assert_eq!((entries(&none[0]), entries(&none[1])), (vec![0.0, 0.0], vec![0.0, 0.0]));
    let mut m = reals(&[1.0, 2.0, 3.0, 4.0]);
    assert_eq!(plain(&transpose(&m, 2)), vec![1.0, 3.0, 2.0, 4.0]);
    symmetrize(&mut m, 2);
    assert_eq!(plain(&m), vec![1.0, 3.0, 3.0, 4.0]);
    m.push(F(8.0));
    symmetrize(&mut m, 2);
    assert_eq!(plain(&m), vec![1.0, 3.0, 3.0, 4.0, 8.0]);
    let g = gram_sub(&x, &y, &vec![0, 2, 2], &vec![1, 0]);
    let t = gram_sub(&y, &x, &vec![1, 0], &vec![0, 2, 2]);
    for i in 0..3 {
        for j in 0..2 {
            assert_eq!(g[i * 2 + j], t[j * 3 + i]);
        }
    }
    let r = residual_vec(&vector(&[1.0, 2.0]), &vector(&[10.0, 20.0]), F(3.0));
    assert_eq!(entries(&r), vec![-7.0, -14.0]);
    let r = residual_vec(&vector(&[1.0, 2.0]), &vector(&[3.0, 4.0, 99.0]), F(2.0));
    assert_eq!(entries(&r), vec![-1.0, 0.0]);
    let mut block = x.clone();
    scatter(&mut block, &vec![2, 0], vec![vector(&[8.0, 8.0]), vector(&[9.0, 9.0])]);
    assert_eq!(entries(&block[0]), vec![9.0, 9.0]);
    assert_eq!(entries(&block[1]), vec![1.0, 1.0]);
    assert_eq!(entries(&block[2]), vec![8.0, 8.0]);
    assert_eq!(index_range(3), vec![0, 1, 2]);
}

#[test]
fn sorting_is_stable() {
    let keys = reals(&[3.0, 1.0, 3.0, 2.0, 1.0]);
    assert_eq!(sort_indices(&keys, false), vec![1, 4, 3, 0, 2]);
    assert_eq!(sort_indices(&keys, true), vec![0, 2, 3, 1, 4]);
}

// Dense eigenproblems.

#[test]
fn dense_pairs_are_sorted() {
    let outcome = PencilOutcome::Pairs {
        values: reals(&[5.0, -1.0]),
        vectors: reals(&[1.0, 2.0, 3.0, 4.0]),
    };
    let (values, vectors) = dense_symm_eig_gen::<F>(outcome, 2).unwrap();
    assert_eq!(plain(&values), vec![-1.0, 5.0]);
    assert_eq!(plain(&vectors), vec![2.0, 4.0, 1.0, 3.0]);
}

#[test]
fn dense_failures_are_reported() {
    match dense_symm_eig_gen::<F>(PencilOutcome::NotPositiveDefinite, 2) {
        Err(SolverError::NumericalBreakdown { detail }) => assert_eq!(
            detail,
            "LOBPCG: GEVP B-matrix not positive definite (dsygv failure)"
        ),
        other => panic!("{other:?}"),
    }
    match dense_symm_eig_gen::<F>(PencilOutcome::SingularFactor, 2) {
        Err(SolverError::NumericalBreakdown { detail }) => {
            assert_eq!(detail, "LOBPCG: GEVP Cholesky factor singular (dsygv failure)")
        }
        other => panic!("{other:?}"),
    }
    assert!(chol_upper_inv::<F>(&None).is_none());
    assert_eq!(chol_upper_inv::<F>(&Some(reals(&[2.0]))), Some(reals(&[2.0])));
}

// LOBPCG.

#[test]
fn standard_smallest_eigenvalue() {
    let n = 20;
    let a = laplacian_1d(n);
    let solver = Lobpcg::<F>::new(None);
    let mut params = EigenParams::new(1, EigenWhich::SmallestAlgebraic);
    params.tol = F(1e-6);
    params.max_iter = 2000;
    let res = solve(&solver, &a, &params).unwrap();
    let exact = 2.0 - 2.0 * (PI / (n as f64 + 1.0)).cos();
    println!("[t] lambda = {:?} exact = {exact} iters = {}", res.eigenvalues, res.iterations);
    assert!((res.eigenvalues[0].0 - exact).abs() < 1e-4);
}

#[test]
fn generalized_diagonal() {
    // A = diag(1,2,3,…), B = identity → λ = 1,2,3,…
    let n = 10;
    let mut a_coo = CooMatrix::new(n, n);
    for i in 0..n {
        a_coo.push(i, i, F((i + 1) as f64));
    }
    let a = CsrMatrix::from_coo(&a_coo);
    let mut eye_coo = CooMatrix::new(n, n);
    for i in 0..n {
        eye_coo.push(i, i, F(1.0));
    }
    let eye = CsrMatrix::from_coo(&eye_coo);
    let solver = Lobpcg::<F>::new_generalized(None, Some(&eye), None);
    let mut params = EigenParams::new(2, EigenWhich::SmallestAlgebraic);
    params.tol = F(1e-8);
    let res = solve(&solver, &a, &params).unwrap();
    assert!((res.eigenvalues[0].0 - 1.0).abs() < 1e-4);
    assert!((res.eigenvalues[1].0 - 2.0).abs() < 1e-4);
}

/// A dense matrix, stored row after row, as a projection.
struct NullspaceProjector {
    p: Vec<f64>,
}

impl Preconditioner<F> for NullspaceProjector {
    fn apply_precond(&self, x: &DenseVec<F>, y: &mut DenseVec<F>) {
        let n = x.len();
        for i in 0..n {
            let mut s = 0.0;
            for j in 0..n {
                s += self.p[i * n + j] * x.as_slice()[j].0;
            }
            y.data[i] = F(s);
        }
    }
}

#[test]
fn nullspace_stays_locked_after_projection() {
    let n = 40;
    let mut a_coo = CooMatrix::new(n, n);
    for i in 0..n {
        let deg = if i == 0 || i == n - 1 { 1.0 } else { 2.0 };
        a_coo.push(i, i, F(deg));
        if i > 0 {
            a_coo.push(i, i - 1, F(-1.0));
        }
        if i < n - 1 {
            a_coo.push(i, i + 1, F(-1.0));
        }
    }
    let a = CsrMatrix::from_coo(&a_coo);
    let m = diagonal_matrix(&vec![1.0; n]);
    let mut g_coo = CooMatrix::new(n, 1);
    for i in 0..n {
        g_coo.push(i, 0, F(1.0));
    }
    let g = CsrMatrix::from_coo(&g_coo);

    // Dense orthogonal projector onto null(Gᵀ) (M = I here).
    let m_g = DMatrix::<f64>::from_fn(n, 1, |r, _c| g.get(r, 0).map_or(0.0, |v| v.0));
    let gtg_inv = (m_g.transpose() * &m_g).try_inverse().unwrap();
    let proj = &m_g * &gtg_inv * m_g.transpose();
    let p = (DMatrix::<f64>::identity(n, n) - proj).as_slice().to_vec();
    let projector = NullspaceProjector { p };

    let solver = Lobpcg::<F>::new_generalized(None, Some(&m), Some(&projector));
    let mut params = EigenParams::new(1, EigenWhich::SmallestAlgebraic);
    params.tol = F(1e-8);
    params.max_iter = 2000;
    let res = solve(&solver, &a, &params).unwrap();

    let a_dense = DMatrix::<f64>::from_fn(n, n, |r, c| a.get(r, c).map_or(0.0, |v| v.0));
    let mut a_eigs: Vec<f64> =
        SymmetricEigen::new(a_dense).eigenvalues.iter().cloned().collect();
    a_eigs.sort_by(|x, y| x.partial_cmp(y).unwrap());
    assert!(a_eigs[0].abs() < 1e-8, "A must have a zero eigenvalue, got {:.3e}", a_eigs[0]);
    let genuine = &a_eigs[1..];
    let lam0 = res.eigenvalues[0].0;
    let dist = genuine.iter().map(|&e| (lam0 - e).abs()).fold(f64::INFINITY, f64::min);
    assert!(
        dist < 1e-4,
        "λ = {lam0} is not a genuine nonzero eigenvalue of A (nearest: {dist:.3e})"
    );
    assert!(lam0 > 1e-3, "must NOT converge to the nullspace");

    for v in &res.eigenvectors {
        let gtv: f64 = entries(v).iter().sum();
        assert!(gtv.abs() < 1e-5, "nullspace leaked: |Gᵀv| = {gtv}");
    }
}

/// Every result is a set of converged, normalised eigenpairs in the order that was asked for.
#[test]
fn results_come_in_order() {
    let mut values = vec![-4.0, 1.0, -0.5];
    values.extend((3..20).map(f64::from));
    let n = values.len();
    let a = diagonal_matrix(&values);
    let solver = Lobpcg::<F>::default();
    assert_eq!(solver.seed, 42);
    let orders = [
        (EigenWhich::SmallestAlgebraic, [-4.0, -0.5, 1.0]),
        (EigenWhich::SmallestMagnitude, [-4.0, -0.5, 1.0]),
        (EigenWhich::LargestAlgebraic, [19.0, 18.0, 17.0]),
        (EigenWhich::LargestMagnitude, [-4.0, 1.0, -0.5]),
        (EigenWhich::BothEnds, [-4.0, 1.0, -0.5]),
    ];
    for (which, want) in orders {
        let mut params = EigenParams::new(3, which);
        params.tol = F(1e-6);
        let res = solve(&solver, &a, &params).unwrap();
        assert_eq!(res.converged, 3);
        assert!(res.iterations >= 1 && res.iterations <= params.max_iter);
        for j in 0..3 {
            let lambda = res.eigenvalues[j].0;
            assert!((lambda - want[j]).abs() < 1e-4, "{which:?}: {:?}", res.eigenvalues);
            assert!(res.residuals[j].0 <= lambda.abs() * 1e-6 + 1e-6 + f64::EPSILON);
            let v = entries(&res.eigenvectors[j]);
            assert!((v.iter().map(|e| e * e).sum::<f64>() - 1.0).abs() < 1e-4);
            for i in 0..n {
                assert!((values[i] * v[i] - lambda * v[i]).abs() < 1e-3);
            }
        }
    }
}

#[test]
fn top_mode_of_two() {
    let a = diagonal_matrix(&[2.0, 3.0]);
    let solver = Lobpcg::<F>::new(None);
    for (which, want) in
        [(EigenWhich::LargestAlgebraic, 3.0), (EigenWhich::SmallestAlgebraic, 2.0)]
    {
        let mut params = EigenParams::new(1, which);
        params.tol = F(1e-6);
        params.max_iter = 50;
        let res = solve(&solver, &a, &params).unwrap();
        assert!((res.eigenvalues[0].0 - want).abs() < 1e-6);
        let start = initial(&solver, 1, 2);
        let first = solver.solve_generalized(&a, &params, start);
        let again = run(&solver, &a, &params, first).unwrap();
        assert_eq!(res.eigenvalues, again.eigenvalues);
    }
}

#[test]
fn top_modes_of_a_laplacian() {
    let n = 20;
    let a = laplacian_1d(n);
    let solver = Lobpcg::<F>::new(None);
    let mut params = EigenParams::new(2, EigenWhich::LargestAlgebraic);
    params.tol = F(1e-6);
    params.max_iter = 2000;
    let res = solve(&solver, &a, &params).unwrap();
    for j in 0..2 {
        let exact = 2.0 - 2.0 * ((n - j) as f64 * PI / (n as f64 + 1.0)).cos();
        assert!((res.eigenvalues[j].0 - exact).abs() < 1e-4);
    }
}

/// After every Rayleigh–Ritz step, and so at the end, the iterates are orthonormal with respect to
/// `B`, and `A` is diagonal on them.
#[test]
fn iterates_stay_orthonormal() {
    let n = 16;
    let a = laplacian_1d(n);
    let weights: Vec<f64> = (0..n).map(|i| 1.0 + (i % 4) as f64 / 2.0).collect();
    let b = diagonal_matrix(&weights);
    let solver = Lobpcg::<F>::new_generalized(None, Some(&b), None);
    let mut params = EigenParams::new(2, EigenWhich::SmallestAlgebraic);
    params.tol = F(1e-6);
    params.max_iter = 2000;
    let mut step = solver.solve_generalized(&a, &params, initial(&solver, 2, n));
    let mut seen = 0;
    loop {
        step = match step {
            Step::Continue { state, request } => {
                if matches!(state.stage, Stage::ResidualBasis) {
                    seen += 1;
                    for i in 0..2 {
                        for j in 0..2 {
                            let xbx = dot(state.x[i].as_slice(), state.bx[j].as_slice()).0;
                            let xax = dot(state.x[i].as_slice(), state.ax[j].as_slice()).0;
                            let (wb, wa) =
                                if i == j { (1.0, state.lambda[i].0) } else { (0.0, 0.0) };
                            assert!((xbx - wb).abs() < 1e-8);
                            assert!((xax - wa).abs() < 1e-8);
                        }
                    }
                }
                solver.resume(&a, &params, state, reply(request))
            }
            Step::Done(result) => {
                let res = result.unwrap();
                for i in 0..2 {
                    for j in 0..2 {
                        let bv = b.spmv(res.eigenvectors[j].as_slice());
                        let product = dot(res.eigenvectors[i].as_slice(), &bv).0;
                        let want = if i == j { 1.0 } else { 0.0 };
                        assert!((product - want).abs() < 1e-8);
                    }
                }
                break;
            }
        };
    }
    assert!(seen > 3);
}

#[test]
fn initial_ritz_vectors_diagonalise() {
    // With three columns in four dimensions the coordinates are far from symmetric.
    let a = diagonal_matrix(&[1.0, 2.0, 4.0, 8.0]);
    let solver = Lobpcg::<F>::new(None);
    let params = EigenParams::new(3, EigenWhich::SmallestAlgebraic);
    let start = vec![
        vector(&[1.0, 2.0, 3.0, 4.0]),
        vector(&[0.5, -1.0, 2.0, 1.0]),
        vector(&[3.0, 1.0, -1.0, 0.5]),
    ];
    let mut step = solver.solve_generalized(&a, &params, start);
    for _ in 0..2 {
        step = match step {
            Step::Continue { state, request } => solver.resume(&a, &params, state, reply(request)),
            Step::Done(_) => unreachable!(),
        };
    }
    match step {
        Step::Continue { state, .. } => {
            assert!(matches!(state.stage, Stage::ResidualBasis));
            assert_eq!(state.iteration, 1);
            for i in 0..3 {
                for j in 0..3 {
                    let xax = dot(state.x[i].as_slice(), state.ax[j].as_slice()).0;
                    let xbx = dot(state.x[i].as_slice(), state.bx[j].as_slice()).0;
                    let (wa, wb) = if i == j { (state.lambda[i].0, 1.0) } else { (0.0, 0.0) };
                    assert!((xax - wa).abs() < 1e-12);
                    assert!((xbx - wb).abs() < 1e-12);
                }
            }
        }
        Step::Done(_) => unreachable!(),
    }
}

#[test]
fn images_are_carried_along() {
    let n = 12;
    let a = laplacian_1d(n);
    let b = diagonal_matrix(&(0..n).map(|i| 1.0 + i as f64 / 10.0).collect::<Vec<f64>>());
    let solver = Lobpcg::<F>::new_generalized(None, Some(&b), None);
    let mut params = EigenParams::new(2, EigenWhich::SmallestAlgebraic);
    params.tol = F(1e-6);
    let mut step = solver.solve_generalized(&a, &params, initial(&solver, 2, n));
    let mut seen = 0;
    while let Step::Continue { state, request } = step {
        if matches!(state.stage, Stage::Ritz { .. }) {
            for j in 0..2 {
                let ax = a.spmv(state.x[j].as_slice());
                let bx = b.spmv(state.x[j].as_slice());
                for i in 0..n {
                    assert!((ax[i].0 - state.ax[j].data[i].0).abs() < 1e-10);
                    assert!((bx[i].0 - state.bx[j].data[i].0).abs() < 1e-10);
                }
            }
            seen += 1;
        }
        step = solver.resume(&a, &params, state, reply(request));
    }
    assert!(seen > 2);
}

/// Converged columns keep their residuals, the others get new ones.
#[test]
fn converged_columns_are_locked() {
    let n = 24;
    let values: Vec<f64> = (0..n).map(|i| if i == 0 { 0.01 } else { 4.0 + i as f64 }).collect();
    let a = diagonal_matrix(&values);
    let solver = Lobpcg::<F>::new(None);
    let mut params = EigenParams::new(2, EigenWhich::SmallestAlgebraic);
    params.tol = F(1e-6);
    let mut step = solver.solve_generalized(&a, &params, initial(&solver, 2, n));
    let mut locked = 0;
    loop {
        let (state, request) = match step {
            Step::Continue { state, request } => (state, request),
            Step::Done(result) => {
                assert!(result.is_ok());
                break;
            }
        };
        let ritz = matches!(state.stage, Stage::Ritz { .. });
        let (active, norms) = (state.active.clone(), state.res_norms.clone());
        step = solver.resume(&a, &params, state, reply(request));
        if let Step::Continue { state, .. } = &step {
            for j in 0..2 {
                if ritz && active.contains(&j) {
                    let r = residual_vec(&state.bx[j], &state.ax[j], state.lambda[j]);
                    assert_eq!(state.res_norms[j], r.norm2());
                } else if ritz {
                    assert_eq!(state.res_norms[j], norms[j]);
                    locked += 1;
                }
            }
        }
    }
    assert!(locked > 0);
}

#[test]
fn eliminated_entries_start_at_zero() {
    let dofs = [1usize, 3, 99];
    let solver = Lobpcg::<F>::new(None).with_zero_dofs(&dofs);
    let a = laplacian_1d(4);
    let params = EigenParams::new(1, EigenWhich::SmallestAlgebraic);
    match solver.solve_generalized(&a, &params, vec![vector(&[1.0, 2.0, 3.0, 4.0])]) {
        Step::Continue { state, request } => {
            assert_eq!(entries(&state.x[0]), vec![1.0, 0.0, 3.0, 0.0]);
            match request {
                Request::Factor { matrix, size } => {
                    assert_eq!(plain(&matrix), vec![10.0]);
                    assert_eq!(size, 1);
                }
                Request::Pencil { .. } => unreachable!(),
            }
        }
        Step::Done(_) => unreachable!(),
    }
}

/// Divides every entry by a number.
struct Divisor(f64);

impl Preconditioner<F> for Divisor {
    fn apply_precond(&self, x: &DenseVec<F>, y: &mut DenseVec<F>) {
        for i in 0..x.len() {
            y.data[i] = F(x.data[i].0 / self.0);
        }
    }
}

#[test]
fn preconditioner_is_used() {
    let n = 20;
    let a = laplacian_1d(n);
    let precond = Divisor(2.0);
    let solver = Lobpcg::<F>::new(Some(&precond));
    let mut params = EigenParams::new(2, EigenWhich::SmallestAlgebraic);
    params.tol = F(1e-6);
    params.max_iter = 2000;
    let res = solve(&solver, &a, &params).unwrap();
    for j in 0..2 {
        let exact = 2.0 - 2.0 * ((j + 1) as f64 * PI / (n as f64 + 1.0)).cos();
        assert!((res.eigenvalues[j].0 - exact).abs() < 1e-4);
    }
}

#[test]
fn iteration_limit_is_reported() {
    let a = laplacian_1d(30);
    let solver = Lobpcg::<F>::new(None);
    for max_iter in [0, 3] {
        let mut params = EigenParams::new(2, EigenWhich::SmallestAlgebraic);
        params.tol = F(1e-12);
        params.max_iter = max_iter;
        match solve(&solver, &a, &params) {
            Err(SolverError::ConvergenceFailed { max_iter: limit, residual }) => {
                assert_eq!(limit, max_iter);
                assert!(residual.0 > 1e-12);
            }
            other => panic!("{other:?}"),
        }
    }
}

fn breakdown_of(result: Outcome) -> String {
    match result {
        Err(SolverError::NumericalBreakdown { detail }) => detail,
        other => panic!("{other:?}"),
    }
}

#[test]
fn dependent_initial_vectors_break_down() {
    let a = laplacian_1d(5);
    let solver = Lobpcg::<F>::new(None);
    let params = EigenParams::new(2, EigenWhich::SmallestAlgebraic);
    let zero = vec![DenseVec::zeros(5), DenseVec::zeros(5)];
    let first = solver.solve_generalized(&a, &params, zero);
    assert_eq!(
        breakdown_of(run(&solver, &a, &params, first)),
        "LOBPCG: bad initial vectors — XᵀBX not SPD (linearly dependent block)"
    );
}

/// Runs a solver up to the given stage, and hands it that reply there.
fn interrupted(at: fn(Stage) -> bool, with: fn() -> Reply<F>) -> Outcome {
    let a = laplacian_1d(12);
    let solver = Lobpcg::<F>::new(None);
    let mut params = EigenParams::new(1, EigenWhich::SmallestAlgebraic);
    params.tol = F(1e-6);
    let mut step = solver.solve_generalized(&a, &params, initial(&solver, 1, 12));
    loop {
        match step {
            Step::Continue { state, request } => {
                let answer = if at(state.stage) { with() } else { reply(request) };
                step = solver.resume(&a, &params, state, answer);
            }
            Step::Done(result) => return result,
        }
    }
}

#[test]
fn failed_decompositions_break_down() {
    assert_eq!(
        breakdown_of(interrupted(
            |s| matches!(s, Stage::InitialRitz),
            || Reply::Pencil(PencilOutcome::SingularFactor)
        )),
        "LOBPCG: initial Rayleigh–Ritz GEVP failed (bad problem)"
    );
    assert_eq!(
        breakdown_of(interrupted(|s| matches!(s, Stage::ResidualBasis), || Reply::Factor(None))),
        "LOBPCG: orthonormalisation of residuals failed (DPOTRF)"
    );
    assert_eq!(
        breakdown_of(interrupted(
            |s| matches!(s, Stage::Ritz { .. }),
            || Reply::Pencil(PencilOutcome::NotPositiveDefinite)
        )),
        "LOBPCG: GEVP B-matrix not positive definite (dsygv failure)"
    );
    assert_eq!(
        breakdown_of(interrupted(
            |s| matches!(s, Stage::Ritz { .. }),
            || Reply::Pencil(PencilOutcome::SingularFactor)
        )),
        "LOBPCG: GEVP Cholesky factor singular (dsygv failure)"
    );
}

#[test]
fn directions_can_be_done_without() {
    let res = interrupted(|s| matches!(s, Stage::DirectionBasis), || Reply::Factor(None)).unwrap();
    let exact = 2.0 - 2.0 * (PI / 13.0).cos();
    assert!((res.eigenvalues[0].0 - exact).abs() < 1e-8);
}

#[test]
fn column_seeds_wrap_around() {
    let mut solver = Lobpcg::<F>::new(None);
    assert_eq!(solver.column_seed(0), 42);
    assert_eq!(solver.column_seed(2), 42 + 2 * 0xdeadbeef);
    solver.seed = u64::MAX;
    assert_eq!(solver.column_seed(1), 0xdeadbeef - 1);
}

#[test]
fn largest_residual_is_at_least_zero() {
    assert_eq!(max_residual(&reals(&[1.0, 3.0, 2.0])), F(3.0));
    assert_eq!(max_residual::<F>(&Vec::new()), F(0.0));
    assert_eq!(max_residual(&reals(&[f64::NAN, 0.5])), F(0.5));
}

// AME.

fn build_small_maxwell_problem() -> (CsrMatrix<F>, CsrMatrix<F>, CsrMatrix<F>) {
    let n_edges = 60;
    let n_nodes = n_edges + 1;
    let a = laplacian_1d(n_edges);
    let m = diagonal_matrix(&vec![1.0; n_edges]);
    let mut g_coo = CooMatrix::new(n_edges, n_nodes);
    for i in 0..n_edges {
        g_coo.push(i, i, F(-1.0));
        g_coo.push(i, i + 1, F(1.0));
    }
    let g = CsrMatrix::from_coo(&g_coo);
    (a, m, g)
}

fn ame_solve(
    solver: &AmeSolver<F>,
    a: &CsrMatrix<F>,
    m: &CsrMatrix<F>,
    g: &CsrMatrix<F>,
) -> Result<AmeResult<F>, SolverError<F>> {
    let reduced = solver.solve(a, m, g)?;
    let outcome = pencil(&reduced.a, &reduced.m, reduced.free.len());
    solver.finish(a, m, &reduced.free, outcome)
}

#[test]
fn ame_solves_small_maxwell() {
    let (a, _m, g) = build_small_maxwell_problem();
    let n_edges_test = a.nrows();
    let mut eye_coo = CooMatrix::new(n_edges_test, n_edges_test);
    for i in 0..n_edges_test {
        eye_coo.push(i, i, F(1.0));
    }
    let eye = CsrMatrix::from_coo(&eye_coo);

    let solver = AmeSolver::new(3).tol(F(1e-8)).max_iter(300).verbose(false);
    let cfg_shift = 0.001;
    let mut solver = solver;
    solver.cfg.shift = F(cfg_shift);
    let result = ame_solve(&solver, &a, &eye, &g).unwrap();
    println!("AME eigenvalues: {:?}", result.eigenvalues);
    let exact = 2.0 - 2.0 * (PI / 61.0).cos();
    assert!(result.eigenvalues.len() >= 2);
    assert!(
        (result.eigenvalues[0].0 - exact).abs() < 1e-3,
        "first eigenvalue ≈ {exact}, got {}",
        result.eigenvalues[0].0
    );
}

#[test]
fn ame_configuration() {
    let cfg = AmeConfig::<F>::default();
    assert_eq!((cfg.nev, cfg.max_iter, cfg.extra, cfg.verbose), (5, 200, 0, false));
    assert_eq!((cfg.tol, cfg.shift), (F(1e-8), F(-0.01)));
    assert!(cfg.zero_dofs.is_empty());
    let solver = AmeSolver::<F>::new(7)
        .tol(F(0.5))
        .max_iter(9)
        .verbose(true)
        .singularity_regularization(F(3.0))
        .extra(2)
        .zero_dofs(vec![4, 6]);
    assert_eq!((solver.cfg.nev, solver.cfg.max_iter, solver.cfg.extra), (7, 9, 2));
    assert_eq!((solver.cfg.tol, solver.cfg.shift), (F(0.5), F(-0.01)));
    assert!(solver.cfg.verbose);
    assert_eq!(solver.cfg.zero_dofs, vec![4, 6]);
}

/// A path of five points whose first and last are eliminated, with a nullspace of dimension one.
fn eliminated_problem() -> (CsrMatrix<F>, CsrMatrix<F>) {
    let mut a = CooMatrix::new(5, 5);
    a.push(0, 0, F(1.0));
    a.push(4, 4, F(1.0));
    for (i, j, v) in [
        (1, 1, 1.0),
        (1, 2, -1.0),
        (2, 1, -1.0),
        (2, 2, 2.0),
        (2, 3, -1.0),
        (3, 2, -1.0),
        (3, 3, 1.0),
    ] {
        a.push(i, j, F(v));
    }
    let m = diagonal_matrix(&[f64::MIN_POSITIVE, 1.0, 1.0, 1.0, f64::MIN_POSITIVE]);
    (CsrMatrix::from_coo(&a), m)
}

#[test]
fn ame_drops_the_nullspace_and_the_boundary() {
    let (a, m) = eliminated_problem();
    let solver = AmeSolver::<F>::new(2);
    let reduced = solver.solve(&a, &m, &a).unwrap();
    assert_eq!(reduced.free, vec![1, 2, 3]);
    assert_eq!(plain(&reduced.a), vec![1.0, -1.0, 0.0, -1.0, 2.0, -1.0, 0.0, -1.0, 1.0]);
    assert_eq!(plain(&reduced.m), vec![1.0, 0.0, 0.0, 0.0, 1.0, 0.0, 0.0, 0.0, 1.0]);
    let result = ame_solve(&solver, &a, &m, &a).unwrap();
    assert!(result.converged);
    assert_eq!(result.iterations, 1);
    assert!((result.eigenvalues[0].0 - 1.0).abs() < 1e-12);
    assert!((result.eigenvalues[1].0 - 3.0).abs() < 1e-12);
    for v in &result.eigenvectors {
        assert_eq!((v.data[0], v.data[4]), (F(0.0), F(0.0)));
    }
    for r in &result.residuals {
        assert!(r.0 < 1e-12);
    }
    // There is no third eigenvalue above zero.
    let result = ame_solve(&AmeSolver::<F>::new(3), &a, &m, &a).unwrap();
    assert!(!result.converged);
    assert_eq!(result.eigenvalues.len(), 2);
    // One may ask for fewer.
    let result = ame_solve(&AmeSolver::<F>::new(1), &a, &m, &a).unwrap();
    assert!(result.converged);
    assert_eq!(result.eigenvalues.len(), 1);
}

#[test]
fn ame_takes_the_decomposition_as_it_is() {
    let (a, m) = eliminated_problem();
    let solver = AmeSolver::<F>::new(2);
    let outcome = PencilOutcome::Pairs {
        values: reals(&[2.0, 1e-9, 1.5]),
        vectors: reals(&[1.0, 2.0, 3.0, 4.0, 5.0, 6.0, 7.0, 8.0, 9.0]),
    };
    let result = solver.finish(&a, &m, &vec![1, 2, 3], outcome).unwrap();
    assert_eq!(plain(&result.eigenvalues), vec![1.5, 2.0]);
    assert_eq!(entries(&result.eigenvectors[0]), vec![0.0, 3.0, 6.0, 9.0, 0.0]);
    assert_eq!(entries(&result.eigenvectors[1]), vec![0.0, 1.0, 4.0, 7.0, 0.0]);
    // A v = (0, -3, 0, 3, 0) and λ M v = (0, 4.5, 9, 13.5, 0).
    let squares = 7.5f64 * 7.5 + 9.0 * 9.0 + 10.5 * 10.5;
    assert_eq!(result.residuals[0], F(squares.sqrt()));
}

/// The pairs on the free points are pairs of the whole pencil, orthonormal with respect to `M`.
#[test]
fn ame_pairs_solve_the_whole_pencil() {
    let (a, _) = eliminated_problem();
    let mut coo = CooMatrix::new(5, 5);
    coo.push(0, 0, F(f64::MIN_POSITIVE));
    coo.push(4, 4, F(f64::MIN_POSITIVE));
    for (i, j, v) in [
        (1, 1, 2.0),
        (1, 2, 0.5),
        (2, 1, 0.5),
        (2, 2, 3.0),
        (2, 3, 0.25),
        (3, 2, 0.25),
        (3, 3, 1.5),
    ] {
        coo.push(i, j, F(v));
    }
    let m = CsrMatrix::from_coo(&coo);
    let result = ame_solve(&AmeSolver::<F>::new(2), &a, &m, &a).unwrap();
    assert_eq!(result.eigenvalues.len(), 2);
    for i in 0..2 {
        let v = result.eigenvectors[i].as_slice();
        let (av, mv) = (a.spmv(v), m.spmv(v));
        for g in 0..5 {
            assert!((av[g].0 - result.eigenvalues[i].0 * mv[g].0).abs() < 1e-12);
        }
        for j in 0..2 {
            let product = dot(result.eigenvectors[j].as_slice(), &mv).0;
            let want = if i == j { 1.0 } else { 0.0 };
            assert!((product - want).abs() < 1e-12);
        }
    }
}

/// Wherever the largest eigenvalue stands, the threshold goes by it.
#[test]
fn ame_threshold_goes_by_the_largest() {
    let (a, m) = eliminated_problem();
    let solver = AmeSolver::<F>::new(2);
    for values in [[1e9, 5.0, 20.0], [5.0, 1e9, 20.0], [20.0, 5.0, 1e9]] {
        let outcome = PencilOutcome::Pairs { values: reals(&values), vectors: reals(&[0.0; 9]) };
        let result = solver.finish(&a, &m, &vec![1, 2, 3], outcome).unwrap();
        assert_eq!(plain(&result.eigenvalues), vec![20.0, 1e9]);
        assert!(result.converged);
    }
}

#[test]
fn ame_failures_are_reported() {
    let (a, m) = eliminated_problem();
    let solver = AmeSolver::<F>::new(2);
    let none = diagonal_matrix(&[f64::MIN_POSITIVE; 5]);
    match solver.solve(&a, &none, &a) {
        Err(SolverError::PrecondSetupFailed { reason }) => assert_eq!(
            reason,
            "AME: no free DOFs (M diagonal everywhere below 1e-100)"
        ),
        other => panic!("{other:?}"),
    }
    match solver.finish(&a, &m, &vec![1, 2, 3], PencilOutcome::NotPositiveDefinite) {
        Err(SolverError::NumericalBreakdown { detail }) => {
            assert_eq!(detail, "AME: M_ff not positive definite (free-DOF mass matrix)")
        }
        other => panic!("{other:?}"),
    }
    match solver.finish(&a, &m, &vec![1, 2, 3], PencilOutcome::SingularFactor) {
        Err(SolverError::NumericalBreakdown { detail }) => {
            assert_eq!(detail, "AME: Cholesky factor of M_ff singular")
        }
        other => panic!("{other:?}"),
    }
}

// LGMRES.

/// A dense complex matrix, stored row after row.
struct Dense {
    n: usize,
    a: Vec<C>,
}

impl Dense {
    fn from_fn(n: usize, f: impl Fn(usize, usize) -> C) -> Self {
        Dense { n, a: (0..n * n).map(|p| f(p / n, p % n)).collect() }
    }

    fn product(&self, x: &[C]) -> Vec<C> {
        (0..self.n)
            .map(|i| {
                (0..self.n).fold(c(0.0, 0.0), |s, j| s.add(self.a[i * self.n + j].mul(x[j])))
            })
            .collect()
    }
}

impl LinearOperator<C> for Dense {
    fn nrows(&self) -> usize {
        self.n
    }
    fn ncols(&self) -> usize {
        self.n
    }
    fn apply(&self, x: &DenseVec<C>, y: &mut DenseVec<C>) {
        y.data = self.product(&x.data);
    }
}

fn banded(n: usize) -> Dense {
    Dense::from_fn(n, |i, j| {
        if i == j {
            c(10.0 + i as f64, 1.0)
        } else if (i as i32 - j as i32).abs() == 1 {
            c(-1.0, 0.1)
        } else {
            c(0.0, 0.0)
        }
    })
}

fn zeros(n: usize) -> DenseVec<C> {
    DenseVec { data: vec![c(0.0, 0.0); n] }
}

fn ramp(n: usize) -> DenseVec<C> {
    DenseVec { data: (0..n).map(|i| c((i + 1) as f64, 0.0)).collect() }
}

fn worst_row(a: &Dense, x: &DenseVec<C>, b: &DenseVec<C>) -> f64 {
    let ax = a.product(&x.data);
    (0..a.n).map(|i| apart(ax[i], b.data[i])).fold(0.0, f64::max)
}

#[test]
fn lgmres_small_diag_dominant() {
    let n = 8;
    let a = banded(n);
    let b = ramp(n);
    let mut x = zeros(n);
    let solver = ComplexLgmres::<F>::new(8, 3);
    let r = solver.solve(&a, None, &b, &mut x, F(1e-10), F(0.0), 500).unwrap();
    assert!(r.converged, "ComplexLgmres should converge on diag-dominant system");
    // Verify: A·x ≈ b
    let ax = a.product(&x.data);
    for i in 0..n {
        let err = apart(ax[i], b.data[i]);
        assert!(err < 1e-8, "row {i}: |Ax-b| = {err:.2e}");
    }
}

#[test]
fn lgmres_reports_the_true_residual() {
    let n = 12;
    let a = banded(n);
    let b = ramp(n);
    let mut x = zeros(n);
    let solver = ComplexLgmres::<F>::new(3, 2);
    let r = solver.solve(&a, None, &b, &mut x, F(1e-9), F(0.0), 500).unwrap();
    assert!(r.converged);
    assert!(r.iters <= 500);
    assert!(r.residual_history.len() > 1);
    let ax = a.product(&x.data);
    let rest: Vec<C> = (0..n).map(|i| b.data[i].sub(ax[i])).collect();
    assert_eq!(complex_norm(&rest), r.residual_norm);
    assert!(r.residual_norm.0 <= 1e-9 * complex_norm(&b.data).0);
}

fn residual_of(a: &Dense, x: &DenseVec<C>, b: &DenseVec<C>) -> Vec<C> {
    let ax = a.product(&x.data);
    (0..a.n).map(|i| b.data[i].sub(ax[i])).collect()
}

/// After one cycle from zero, the residual is orthogonal to the images of the Krylov vectors
/// `b, A·b, …`, and no other step along them leaves a smaller one.
#[test]
fn lgmres_cycle_minimises_the_residual() {
    let n = 10;
    let a = banded(n);
    let b = ramp(n);
    let solver = ComplexLgmres::<F>::new(3, 0);
    let mut x = zeros(n);
    assert!(solver.solve(&a, None, &b, &mut x, F(1e-14), F(0.0), 3).is_err());
    let rest = residual_of(&a, &x, &b);
    let best = complex_norm(&rest).0;
    assert!(best > 1e-9);
    let mut direction = b.data.clone();
    for _ in 0..3 {
        let image = a.product(&direction);
        let relative = inner(&image, &rest).norm().0 / complex_norm(&image).0;
        assert!(relative < 1e-12 * complex_norm(&b.data).0);
        for step in [c(1e-3, 0.0), c(-1e-3, 0.0), c(0.0, 1e-3), c(2e-3, -1e-3)] {
            let mut other = zeros(n);
            for i in 0..n {
                other.data[i] = x.data[i].add(step.mul(direction[i]));
            }
            assert!(complex_norm(&residual_of(&a, &other, &b)).0 > best);
        }
        direction = image;
    }
}

#[test]
fn lgmres_residuals_never_grow() {
    let n = 14;
    let a = banded(n);
    let b = ramp(n);
    let solver = ComplexLgmres::<F>::new(2, 2);
    let mut last = complex_norm(&residual_of(&a, &ramp(n), &b)).0;
    for limit in 1..12 {
        let mut x = ramp(n);
        let _ = solver.solve(&a, Some(&Jacobi), &b, &mut x, F(1e-14), F(0.0), limit);
        let now = complex_norm(&residual_of(&a, &x, &b)).0;
        assert!(now <= last * (1.0 + 1e-9) + 1e-12);
        last = now;
    }
    assert!(last < 1e-4);
}

#[test]
fn lgmres_absolute_tolerance() {
    let a = banded(6);
    let b = ramp(6);
    let mut x = zeros(6);
    let solver = ComplexLgmres::<F>::new(6, 0);
    // The zero vector is within the absolute tolerance already.
    let r = solver.solve(&a, None, &b, &mut x, F(0.0), F(100.0), 50).unwrap();
    assert!(r.converged);
    assert_eq!(r.iters, 0);
    assert!(r.residual_history.is_empty());
    assert_eq!(r.residual_norm, complex_norm(&b.data));
    assert!(x.data.iter().all(|z| apart(*z, c(0.0, 0.0)) == 0.0));
}

/// Divides by the diagonal of the banded matrix.
struct Jacobi;

impl Preconditioner<C> for Jacobi {
    fn apply_precond(&self, x: &DenseVec<C>, y: &mut DenseVec<C>) {
        for i in 0..x.data.len() {
            y.data[i] = x.data[i].div(c(10.0 + i as f64, 1.0));
        }
    }
}

#[test]
fn lgmres_with_a_preconditioner() {
    let n = 16;
    let a = banded(n);
    let b = ramp(n);
    let mut x = zeros(n);
    let solver = ComplexLgmres::<F>::new(4, 0);
    let r = solver.solve(&a, Some(&Jacobi), &b, &mut x, F(1e-10), F(0.0), 500).unwrap();
    assert!(r.converged);
    assert!(worst_row(&a, &x, &b) < 1e-8);
    let mut y = zeros(n);
    let plain = solver.solve(&a, None, &b, &mut y, F(1e-10), F(0.0), 500).unwrap();
    assert!(r.iters < plain.iters);
}

#[test]
fn lgmres_checks_the_dimensions() {
    let a = banded(4);
    let solver = ComplexLgmres::<F>::new(4, 0);
    let mut x = ramp(4);
    match solver.solve(&a, None, &zeros(5), &mut x, F(1e-8), F(0.0), 10) {
        Err(SolverError::DimensionMismatch { op_rows, op_cols, rhs_len }) => {
            assert_eq!((op_rows, op_cols, rhs_len), (4, 4, 5))
        }
        other => panic!("{other:?}"),
    }
    let mut short = zeros(3);
    assert!(matches!(
        solver.solve(&a, None, &ramp(4), &mut short, F(1e-8), F(0.0), 10),
        Err(SolverError::DimensionMismatch { op_rows: 4, op_cols: 4, rhs_len: 4 })
    ));
}

#[test]
fn lgmres_with_a_zero_right_hand_side() {
    let a = banded(4);
    let solver = ComplexLgmres::<F>::new(4, 0);
    let mut x = ramp(4);
    let r = solver.solve(&a, None, &zeros(4), &mut x, F(1e-8), F(0.0), 10).unwrap();
    assert!(r.converged);
    assert_eq!((r.iters, r.residual_norm), (0, F(0.0)));
    assert_eq!(plain(&r.residual_history), vec![0.0]);
    assert!(x.data.iter().all(|z| apart(*z, c(0.0, 0.0)) == 0.0));
}

#[test]
fn lgmres_iteration_limit() {
    let a = banded(10);
    let b = ramp(10);
    let solver = ComplexLgmres::<F>::new(2, 1);
    let mut x = zeros(10);
    match solver.solve(&a, None, &b, &mut x, F(1e-12), F(0.0), 3) {
        Err(SolverError::ConvergenceFailed { max_iter, residual }) => {
            assert_eq!(max_iter, 3);
            assert!(residual.0.is_finite() && residual.0 > 0.0);
        }
        other => panic!("{other:?}"),
    }
    // The steps that were made count.
    assert!(worst_row(&a, &x, &b) < worst_row(&a, &zeros(10), &b));
    let mut x = zeros(10);
    let r = solver.solve(&a, None, &b, &mut x, F(1e-12), F(0.0), 0).unwrap();
    assert!(!r.converged);
    assert_eq!((r.iters, r.residual_norm), (0, complex_norm(&b.data)));
}

#[test]
fn lgmres_parameters_are_clamped() {
    let solver = ComplexLgmres::<F>::new(0, 50);
    assert_eq!((solver.restart, solver.aug_dim), (1, 20));
    let mut ws = ComplexLgmresWorkspace::<F>::new(3, 0, 50);
    assert_eq!((ws.restart, ws.aug_dim), (1, 20));
    assert_eq!((ws.v.len(), ws.h.len(), ws.h[0].len()), (22, 21, 22));
    assert_eq!((ws.cs.len(), ws.sn.len(), ws.g.len(), ws.r.len()), (21, 21, 22, 3));
    ws.cs[0] = F(7.0);
    ws.ensure(3, 1, 20);
    assert_eq!(ws.cs[0], F(7.0));
    ws.ensure(3, 2, 20);
    assert_eq!((ws.restart, ws.cs.len(), ws.cs[0]), (2, 22, F(0.0)));
    ws.ensure(4, 2, 20);
    assert_eq!(ws.r.len(), 4);
}

#[test]
fn rotations_eliminate() {
    let cases = [
        (c(3.0, 4.0), c(12.0, 0.0)),
        (c(0.0, 0.0), c(0.0, 2.0)),
        (c(1.0, -1.0), c(0.0, 0.0)),
        (c(-2.0, 1.0), c(0.5, 3.0)),
    ];
    for (f, g) in cases {
        let (cos, s) = complex_givens(f, g);
        let upper = f.scale(cos).add(s.mul(g));
        let lower = s.conj().neg().mul(f).add(g.scale(cos));
        assert!(lower.norm().0 < 1e-14);
        assert!((upper.norm().0 - f.norm().0.hypot(g.norm().0)).abs() < 1e-14);
    }
    let (cos, s) = complex_givens(c(3.0, 0.0), c(4.0, 0.0));
    assert!((cos.0 - 0.6).abs() < 1e-15 && apart(s, c(0.8, 0.0)) < 1e-15);
}

#[test]
fn rotations_are_applied_in_turn() {
    let mut h = vec![vec![c(9.0, 0.0); 3], vec![c(1.0, 0.0), c(2.0, 0.0), c(5.0, 0.0)]];
    apply_givens_seq(&mut h, &vec![F(0.6), F(0.0)], &vec![c(0.0, 0.8), c(0.0, 0.0)], 1);
    assert!(apart(h[1][0], c(0.6, 1.6)) < 1e-15);
    assert!(apart(h[1][1], c(1.2, 0.8)) < 1e-15);
    assert!(apart(h[1][2], c(5.0, 0.0)) == 0.0);
    assert!(apart(h[0][0], c(9.0, 0.0)) == 0.0);
}

#[test]
fn triangular_systems_are_solved() {
    // Columns of [[2, 1, i], [0, 4, 2], [0, 0, 0]]: the last diagonal entry is negligible.
    let h = vec![
        vec![c(2.0, 0.0), c(0.0, 0.0), c(0.0, 0.0)],
        vec![c(1.0, 0.0), c(4.0, 0.0), c(0.0, 0.0)],
        vec![c(0.0, 1.0), c(2.0, 0.0), c(0.0, 0.0)],
    ];
    let g = vec![c(5.0, 0.0), c(8.0, 4.0), c(3.0, 0.0)];
    let y = back_substitute::<F>(&h, &g, 3);
    assert!(apart(y[2], c(0.0, 0.0)) == 0.0);
    assert!(apart(y[1], c(2.0, 1.0)) < 1e-15);
    assert!(apart(y[0], c(1.5, -0.5)) < 1e-15);
}

// Rational fitting.

fn least_squares(problem: &LeastSquares<F>) -> Option<Vec<F>> {
    let a = matrix(problem.rows, problem.unknowns, &problem.matrix);
    let b = DVector::from_iterator(problem.rows, problem.rhs.iter().map(|v| v.0));
    let x = a.svd(true, true).solve(&b, problem.cutoff.0).ok()?;
    Some(x.iter().map(|&v| F(v)).collect())
}

fn fit(freqs: &[f64], h: &[C], n_poles: usize, n_iter: usize) -> (VectorFitModel<F>, usize) {
    let mut step = vector_fit(&reals(freqs), h, n_poles, n_iter);
    let mut solutions = 0;
    loop {
        match step {
            FitStep::Continue { fit, problem } => {
                solutions += 1;
                step = fit.resume(least_squares(&problem));
            }
            FitStep::Done(model) => return (model, solutions),
        }
    }
}

#[test]
fn constant_roundtrip() {
    let freqs: Vec<f64> = (1..=20).map(|k| k as f64 * 1.0e6).collect();
    let h: Vec<C> = freqs.iter().map(|_| c(2.0, 0.0)).collect();
    let (model, _) = fit(&freqs, &h, 2, 3);
    let err: f64 = freqs
        .iter()
        .map(|&f| apart(model.eval(F(2.0 * PI * f)), c(2.0, 0.0)))
        .fold(0.0, f64::max);
    assert!(err < 0.1, "const fit err={:.6e}", err);
}

#[test]
fn single_pole_roundtrip() {
    let pole = -1.0e9;
    let freqs: Vec<f64> = (1..=50).map(|k| k as f64 * 50.0e6).collect();
    let reference = |f: f64| c(1.0, 0.0).div(c(pole, 2.0 * PI * f));
    let h: Vec<C> = freqs.iter().map(|&f| reference(f)).collect();
    let (model, _) = fit(&freqs, &h, 2, 10);
    let err: f64 = freqs
        .iter()
        .map(|&f| apart(model.eval(F(2.0 * PI * f)), reference(f)))
        .fold(0.0, f64::max);
    assert!(err < 0.5, "pole fit err={:.6e}", err);
}

#[test]
fn models_are_evaluated() {
    let model = VectorFitModel {
        poles: vec![c(-1.0, 0.0), c(0.0, 1.0)],
        residues: vec![c(2.0, 0.0), c(0.0, 3.0)],
        d: F(0.5),
    };
    assert_eq!(model.n_poles(), 2);
    // 2/(2i + 1) + 3i/(2i - i) + 0.5 = (0.4 - 0.8i) + 3 + 0.5
    assert!(apart(model.eval(F(2.0)), c(3.9, -0.8)) < 1e-15);
}

#[test]
fn fits_without_samples_are_empty() {
    for (freqs, h) in [(vec![], vec![c(1.0, 0.0)]), (vec![1.0], vec![])] {
        let (model, solutions) = fit(&freqs, &h, 4, 3);
        assert_eq!((model.n_poles(), model.residues.len(), model.d), (0, 0, F(0.0)));
        assert_eq!(solutions, 0);
    }
}

#[test]
fn poles_come_in_pairs() {
    let freqs = [1.0, 10.0, 100.0, 1000.0];
    let h = vec![c(1.0, 0.5); 3];
    for (n_poles, n_iter, poles, iters) in [(0, 0, 2, 2), (3, 2, 2, 2), (7, 5, 6, 5)] {
        let (model, solutions) = fit(&freqs, &h, n_poles, n_iter);
        assert_eq!(model.n_poles(), poles);
        assert_eq!(solutions, iters);
        for k in 0..poles / 2 {
            let (p, q) = (model.poles[2 * k], model.poles[2 * k + 1]);
            assert_eq!((p.re, p.im), (q.re, F(-q.im.0)));
            assert_eq!(p.re, F(-p.im.0 * 0.01));
        }
        // Three samples count, from one to a hundred Hertz.
        let (low, high) = (2.0 * PI, 2.0 * PI * 100.0);
        if poles == 2 {
            assert_eq!(model.poles[0].im, F((low + high) / 2.0));
        } else {
            assert_eq!(model.poles[0].im, F(low));
            assert!((model.poles[2].im.0 - 2.0 * PI * 10.0).abs() < 1e-9);
            assert!((model.poles[4].im.0 - high).abs() < 1e-9);
        }
    }
}

#[test]
fn least_squares_problem_of_one_sample() {
    match vector_fit(&reals(&[0.5]), &[c(7.0, -3.0)], 2, 2) {
        FitStep::Continue { fit, problem } => {
            assert_eq!((problem.rows, problem.unknowns, problem.cutoff), (2, 3, F(1e-12)));
            assert_eq!(plain(&problem.rhs), vec![7.0, -3.0]);
            assert_eq!((problem.matrix[2], problem.matrix[5]), (F(1.0), F(0.0)));
            // 1/(iω − p) with p = −0.01ω + iω is 1/(0.01ω).
            assert!((problem.matrix[0].0 - 100.0 / PI).abs() < 1e-12);
            assert!(problem.matrix[3].0.abs() < 1e-12);
            assert_eq!(fit.left, 2);
        }
        FitStep::Done(_) => unreachable!(),
    }
}

#[test]
fn rows_of_the_problem_are_values_of_the_model() {
    let freqs = [0.5, 1.0, 3.0];
    let h = [c(1.0, 2.0), c(3.0, 4.0), c(5.0, 6.0)];
    let x = [0.5, -2.0, 3.0, 1.5, 0.25];
    match vector_fit(&reals(&freqs), &h, 4, 2) {
        FitStep::Continue { fit, problem } => {
            let model = VectorFitModel {
                poles: fit.poles.clone(),
                residues: x[..4].iter().map(|&r| c(r, 0.0)).collect(),
                d: F(x[4]),
            };
            for k in 0..3 {
                let row = |r: usize| (0..5).map(|j| problem.matrix[r * 5 + j].0 * x[j]).sum::<f64>();
                let value = model.eval(fit.omegas[k]);
                assert!((row(2 * k) - value.re.0).abs() < 1e-12);
                assert!((row(2 * k + 1) - value.im.0).abs() < 1e-12);
                assert_eq!((problem.rhs[2 * k], problem.rhs[2 * k + 1]), (h[k].re, h[k].im));
            }
        }
        FitStep::Done(_) => unreachable!(),
    }
}

#[test]
fn last_solution_decides() {
    let waiting = |left: usize| VectorFit {
        omegas: reals(&[1.0]),
        samples: vec![c(1.0, 0.0)],
        poles: vec![c(-1.0, 1.0), c(-1.0, -1.0)],
        residues: vec![c(5.0, 0.0), c(6.0, 0.0)],
        d: F(4.0),
        left,
    };
    match waiting(1).resume(None) {
        FitStep::Done(model) => {
            assert_eq!((model.residues[0].re, model.residues[1].re), (F(5.0), F(6.0)));
            assert_eq!(model.d, F(4.0));
        }
        FitStep::Continue { .. } => unreachable!(),
    }
    match waiting(2).resume(Some(reals(&[1.0, 2.0, 3.0]))) {
        FitStep::Continue { fit, .. } => match fit.resume(Some(reals(&[7.0, 8.0, 9.0]))) {
            FitStep::Done(model) => {
                assert_eq!((model.residues[0].re, model.residues[0].im), (F(7.0), F(0.0)));
                assert_eq!((model.residues[1].re, model.d), (F(8.0), F(9.0)));
            }
            FitStep::Continue { .. } => unreachable!(),
        },
        FitStep::Done(_) => unreachable!(),
    }
}
