# linger

Linear solvers and eigensolvers, verified with Verus.

| Module | What it holds |
| --- | --- |
| `scalar`, `complex` | the number types that the solvers compute with |
| `vector`, `sparse`, `operator` | vectors, sparse matrices, linear operators and preconditioners |
| `order`, `index`, `error` | stable sorting, matrix positions, errors |
| `fft`, `bttb` | the fast Fourier transform and BTTB products |
| `direct::dense_lu` | dense LU factorisation with partial pivoting |
| `eigen::lobpcg`, `eigen::ame` | block eigensolvers |
| `eigen::block`, `eigen::dense` | what they share |
| `iterative::complex_lgmres` | LGMRES for complex systems |
| `rational_fit` | vector fitting |
| `exact`, `fourier`, `convolution`, `eigen::invariants`, `eigen::orthonormal`, `eigen::rayleigh_ritz`, `eigen::free_pencil`, `iterative::identities`, `iterative::unitary`, `iterative::frame`, `iterative::minimal` | what the algorithms are for, proved |

Every contract is stated operation by operation over the functions that a number type computes, so
it describes the computed value, rounding included. Of the number type only one law is asked: that
sums and products do not depend on the order of their two operands. What holds only without rounding is proved
under the hypothesis that the numbers obey the laws of algebra.

Dense decompositions of real matrices are asked for: a solver hands out a matrix and goes on when
it is given the decomposition. `app/` answers with `nalgebra` on `f32` and `f64`; `tests/` does the
same.
