//! What factorisation and substitution are for: the solution solves the system.
//!
//! The entries are read as numbers of an exact model. Where the decomposition of the matrix is one,
//! and where the two substitutions solve their triangular systems, `A·x = b`.
use super::dense_lu::{
    all_zero, lu_parts, system_solution, unit_lower_solution, upper_solution,
    whole_complex, DenseLu,
};
use crate::exact::{
    is_ring, lemma_ring, lemma_total_same, lemma_total_swap, lemma_total_times, total,
};
use crate::order::lemma_all_listed;
use crate::scalar::Field;
use num_complex::Complex64;
use vstd::prelude::*;

verus! {

/// Entry `(i, j)` of the `n×n` matrix that is stored column after column.
pub open spec fn matrix_entry<E: Field>(
    value: spec_fn(Complex64) -> E,
    a: Seq<Complex64>,
    n: nat,
    i: int,
    j: int,
) -> E {
    value(a[j * n + i])
}

/// Entry `(i, j)` of the unit lower triangular factor.
pub open spec fn lower_entry<E: Field>(
    value: spec_fn(Complex64) -> E,
    lu: Seq<Complex64>,
    n: nat,
    i: int,
    j: int,
) -> E {
    if i == j {
        E::unit()
    } else if i > j {
        value(lu[j * n + i])
    } else {
        E::nought()
    }
}

/// Entry `(i, j)` of the upper triangular factor.
pub open spec fn upper_entry<E: Field>(
    value: spec_fn(Complex64) -> E,
    lu: Seq<Complex64>,
    n: nat,
    i: int,
    j: int,
) -> E {
    if i <= j {
        value(lu[j * n + i])
    } else {
        E::nought()
    }
}

/// Entry `i` of `L·y`.
pub open spec fn lower_product<E: Field>(
    value: spec_fn(Complex64) -> E,
    lu: Seq<Complex64>,
    n: nat,
    y: Seq<Complex64>,
    i: int,
) -> E {
    total(n, |k: int| lower_entry(value, lu, n, i, k).times(value(y[k])))
}

/// Entry `i` of `U·x`.
pub open spec fn upper_product<E: Field>(
    value: spec_fn(Complex64) -> E,
    lu: Seq<Complex64>,
    n: nat,
    x: Seq<Complex64>,
    i: int,
) -> E {
    total(n, |j: int| upper_entry(value, lu, n, i, j).times(value(x[j])))
}

/// Entry `i` of `A·x`.
pub open spec fn matrix_product<E: Field>(
    value: spec_fn(Complex64) -> E,
    a: Seq<Complex64>,
    n: nat,
    x: Seq<Complex64>,
    i: int,
) -> E {
    total(n, |j: int| matrix_entry(value, a, n, i, j).times(value(x[j])))
}

/// Entry `(i, j)` of `L·U`.
pub open spec fn factor_product<E: Field>(
    value: spec_fn(Complex64) -> E,
    lu: Seq<Complex64>,
    n: nat,
    i: int,
    j: int,
) -> E {
    total(n, |k: int| lower_entry(value, lu, n, i, k).times(upper_entry(value, lu, n, k, j)))
}

/// The decomposition is one: `L·U` is the matrix with its rows in the order of the decomposition.
pub open spec fn decomposes<E: Field>(
    value: spec_fn(Complex64) -> E,
    a: Seq<Complex64>,
    n: nat,
) -> bool {
    let (lu, order) = lu_parts(a, n);
    forall|i: int, j: int|
        0 <= i < n && 0 <= j < n ==> #[trigger] factor_product(value, lu, n, i, j) == matrix_entry(
            value,
            a,
            n,
            order[i] as int,
            j,
        )
}

/// Forward substitution solves `L·y = c`.
pub open spec fn substitutes_forward<E: Field>(
    value: spec_fn(Complex64) -> E,
    lu: Seq<Complex64>,
    n: nat,
) -> bool {
    forall|c: Seq<Complex64>, i: int|
        c.len() == n && 0 <= i < n ==> #[trigger] lower_product(
            value,
            lu,
            n,
            unit_lower_solution(lu, n, c),
            i,
        ) == value(c[i])
}

/// Backward substitution, where it succeeds, solves `U·x = y`.
pub open spec fn substitutes_backward<E: Field>(
    value: spec_fn(Complex64) -> E,
    lu: Seq<Complex64>,
    n: nat,
) -> bool {
    forall|y: Seq<Complex64>, x: Seq<Complex64>, i: int|
        #![trigger upper_solution(lu, n, y), upper_product(value, lu, n, x, i)]
        0 <= i < n && upper_solution(lu, n, y) == Some(x) ==> upper_product(value, lu, n, x, i)
            == value(y[i])
}

/// `L·(U·x)` is `(L·U)·x`.
proof fn lemma_factors_in_turn<E: Field>(
    value: spec_fn(Complex64) -> E,
    lu: Seq<Complex64>,
    n: nat,
    x: Seq<Complex64>,
    i: int,
)
    requires
        is_ring::<E>(),
    ensures
        total(
            n,
            |k: int| lower_entry(value, lu, n, i, k).times(upper_product(value, lu, n, x, k)),
        ) == total(n, |j: int| factor_product(value, lu, n, i, j).times(value(x[j]))),
{
    let f = |k: int, j: int|
        lower_entry(value, lu, n, i, k).times(
            upper_entry(value, lu, n, k, j).times(value(x[j])),
        );
    let rows = |k: int| total(n, |j: int| f(k, j));
    let nested = |k: int|
        lower_entry(value, lu, n, i, k).times(upper_product(value, lu, n, x, k));
    assert forall|k: int| 0 <= k < n implies #[trigger] nested(k) == rows(k) by {
        let l = lower_entry(value, lu, n, i, k);
        let term = |j: int| upper_entry(value, lu, n, k, j).times(value(x[j]));
        lemma_total_times(n, l, term);
        lemma_total_same(n, |j: int| l.times(term(j)), |j: int| f(k, j));
    }
    lemma_total_same(n, nested, rows);
    lemma_total_swap(n, n, f);
    let cols = |j: int| total(n, |k: int| f(k, j));
    let whole = |j: int| factor_product(value, lu, n, i, j).times(value(x[j]));
    assert forall|j: int| 0 <= j < n implies #[trigger] cols(j) == whole(j) by {
        let c = value(x[j]);
        let term = |k: int|
            lower_entry(value, lu, n, i, k).times(upper_entry(value, lu, n, k, j));
        lemma_total_times(n, c, term);
        let (before, after) = (|k: int| f(k, j), |k: int| term(k).times(c));
        assert forall|k: int| 0 <= k < n implies #[trigger] before(k) == after(k) by {
            lemma_ring(
                lower_entry(value, lu, n, i, k),
                upper_entry(value, lu, n, k, j),
                c,
            );
        }
        lemma_total_same(n, before, after);
    }
    lemma_total_same(n, cols, whole);
}

/// What [`DenseLu::solve`] gives for the factors that it holds: where the two substitutions solve
/// their triangular systems, `L·U·x` is the right-hand side with its rows exchanged.
pub proof fn lemma_factors_applied<E: Field>(
    value: spec_fn(Complex64) -> E,
    lu: DenseLu,
    b: Seq<Complex64>,
    x: Seq<Complex64>,
    i: int,
)
    requires
        is_ring::<E>(),
        substitutes_forward(value, lu.a@, lu.n as nat),
        substitutes_backward(value, lu.a@, lu.n as nat),
        lu.permuted(b).len() == lu.n,
        lu.solution(b) == Some(x),
        0 <= i < lu.n,
    ensures
        total(
            lu.n as nat,
            |j: int| factor_product(value, lu.a@, lu.n as nat, i, j).times(value(x[j])),
        ) == value(lu.permuted(b)[i]),
{
    let n = lu.n as nat;
    let c = lu.permuted(b);
    let y = unit_lower_solution(lu.a@, n, c);
    assert(lower_product(value, lu.a@, n, unit_lower_solution(lu.a@, n, c), i) == value(c[i]));
    let (given, through) = (
        |k: int| lower_entry(value, lu.a@, n, i, k).times(value(y[k])),
        |k: int| lower_entry(value, lu.a@, n, i, k).times(upper_product(value, lu.a@, n, x, k)),
    );
    assert forall|k: int| 0 <= k < n implies #[trigger] given(k) == through(k) by {
        assert(upper_solution(lu.a@, n, y) == Some(x));
        assert(upper_product(value, lu.a@, n, x, k) == value(y[k]));
    }
    lemma_total_same(n, given, through);
    lemma_factors_in_turn(value, lu.a@, n, x, i);
}

/// Factorising a matrix and solving with the factors solves the system: where the decomposition is
/// one and the substitutions solve their triangular systems, every row of `A·x` is that of `b`.
pub proof fn lemma_solves_system<E: Field>(
    value: spec_fn(Complex64) -> E,
    a: Seq<Complex64>,
    lu: DenseLu,
    b: Seq<Complex64>,
    x: Seq<Complex64>,
    i: int,
)
    requires
        is_ring::<E>(),
        lu.factorises(a),
        decomposes(value, a, lu.n as nat),
        substitutes_forward(value, lu.a@, lu.n as nat),
        substitutes_backward(value, lu.a@, lu.n as nat),
        b.len() == lu.n,
        lu.solution(b) == Some(x),
        0 <= i < lu.n,
    ensures
        matrix_product(value, a, lu.n as nat, x, i) == value(b[i]),
{
    let n = lu.n as nat;
    let order = lu_parts(a, n).1;
    lemma_all_listed(order, n, i as usize);
    let r = choose|c: int| 0 <= c < n && order[c] == i as usize;
    assert(0 <= r < n && order[r] == i as usize);
    lemma_factors_applied(value, lu, b, x, r);
    assert(lu.permuted(b)[r] == b[i]);
    let (whole, plain) = (
        |j: int| factor_product(value, lu.a@, n, r, j).times(value(x[j])),
        |j: int| matrix_entry(value, a, n, i, j).times(value(x[j])),
    );
    assert forall|j: int| 0 <= j < n implies #[trigger] whole(j) == plain(j) by {
        assert(factor_product(value, lu.a@, n, r, j) == matrix_entry(
            value,
            a,
            n,
            order[r] as int,
            j,
        ));
    }
    lemma_total_same(n, whole, plain);
}

/// The solution by way of the decomposition of a matrix is one of the system.
pub proof fn lemma_system_solution<E: Field>(
    value: spec_fn(Complex64) -> E,
    a: Seq<Complex64>,
    lu: DenseLu,
    b: Seq<Complex64>,
    x: Seq<Complex64>,
    i: int,
)
    requires
        is_ring::<E>(),
        lu.factorises(a),
        decomposes(value, a, lu.n as nat),
        substitutes_forward(value, lu.a@, lu.n as nat),
        substitutes_backward(value, lu.a@, lu.n as nat),
        b.len() == lu.n,
        system_solution(a, lu.n as nat, b) == Some(x),
        0 <= i < lu.n,
    ensures
        matrix_product(value, a, lu.n as nat, x, i) == value(b[i]),
{
    assert(lu.solution(b) == system_solution(a, lu.n as nat, b));
    lemma_solves_system(value, a, lu, b, x, i);
}

/// Where there is no solution, what is handed back is the zero vector.
pub proof fn lemma_no_solution<E: Field>(value: spec_fn(Complex64) -> E, n: nat, i: int)
    requires
        value(whole_complex(0, 0)) == E::nought(),
        0 <= i < n,
    ensures
        all_zero(n).len() == n,
        value(all_zero(n)[i]) == E::nought(),
{
}

} // verus!
