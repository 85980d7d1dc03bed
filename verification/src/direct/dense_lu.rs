//! Dense LU factorisation with partial pivoting.
//!
//! The factorisation and the two triangular solves are those of `nalgebra`, on complex
//! numbers in double precision. The bookkeeping of the row exchanges stands here.
use crate::order::gather;
use num_complex::Complex64;
use vstd::prelude::*;

verus! {

/// Complex numbers of `num_complex`, whose parts are not looked at here.
#[verifier::external_type_specification]
#[verifier::external_body]
#[verifier::reject_recursive_types(T)]
pub struct ExComplex<T>(num_complex::Complex<T>);

/// What `nalgebra` computes as the LU decomposition of the `n×n` matrix `a`, stored column
/// after column: the factors in compact storage, and the order in which the row exchanges
/// leave the rows.
pub uninterp spec fn lu_parts(a: Seq<Complex64>, n: nat) -> (Seq<Complex64>, Seq<usize>);

/// What `nalgebra` computes as the solution of `L·x = b`, where `L` is the part below the
/// diagonal of `lu`, with ones on the diagonal.
pub uninterp spec fn unit_lower_solution(lu: Seq<Complex64>, n: nat, b: Seq<Complex64>) -> Seq<
    Complex64,
>;

/// What `nalgebra` computes as the solution of `U·x = b`, where `U` is the part of `lu` on and
/// above the diagonal.
pub uninterp spec fn upper_solution(lu: Seq<Complex64>, n: nat, b: Seq<Complex64>) -> Option<
    Seq<Complex64>,
>;

/// The complex number with the given whole parts.
pub uninterp spec fn whole_complex(re: int, im: int) -> Complex64;

/// `order` lists every row once.
pub open spec fn is_row_order(order: Seq<usize>, n: nat) -> bool {
    &&& order.len() == n
    &&& forall|i: int| 0 <= i < n ==> (#[trigger] order[i]) < n
    &&& forall|i: int, j: int| 0 <= i < j < n ==> #[trigger] order[i] != #[trigger] order[j]
}

/// Calls `nalgebra::linalg::LU::new`, by way of `DMatrix::lu`. It eliminates column after
/// column by ordinary complex arithmetic, exchanging rows for the entry of largest
/// `|re| + |im|`; the result is named by [`lu_parts`]. The factors have the shape of the
/// matrix. The row order is read off by letting `PermutationSequence::permute_rows` act on the
/// row numbers: it only exchanges rows, so every row is listed once.
#[verifier::external_body]
fn lu_decompose(a: &Vec<Complex64>, n: usize) -> (r: (Vec<Complex64>, Vec<usize>))
    requires
        a@.len() == n * n,
    ensures
        r.0@ == lu_parts(a@, n as nat).0,
        r.1@ == lu_parts(a@, n as nat).1,
        r.0@.len() == n * n,
        is_row_order(r.1@, n as nat),
{
    let lu = nalgebra::DMatrix::<Complex64>::from_column_slice(n, n, a).lu();
    let mut order = nalgebra::DVector::<usize>::from_fn(n, |i, _| i);
    lu.p().permute_rows(&mut order);
    (lu.lu_internal().as_slice().to_vec(), order.as_slice().to_vec())
}

/// Calls `solve_lower_triangular_with_diag_mut` of `nalgebra` with ones on the diagonal. It
/// substitutes forward by ordinary complex arithmetic, reading nothing of `lu` but the part
/// below the diagonal; the result is named by [`unit_lower_solution`]. It cannot fail, and
/// keeps the length. A matrix without rows is left out: the call fails on it.
#[verifier::external_body]
fn solve_unit_lower(lu: &Vec<Complex64>, n: usize, b: &Vec<Complex64>) -> (x: Vec<Complex64>)
    requires
        n >= 1,
        lu@.len() == n * n,
        b@.len() == n,
    ensures
        x@ == unit_lower_solution(lu@, n as nat, b@),
        x@.len() == n,
{
    let m = nalgebra::DMatrix::<Complex64>::from_column_slice(n, n, lu);
    let mut x = nalgebra::DVector::<Complex64>::from_column_slice(b);
    m.solve_lower_triangular_with_diag_mut(&mut x, Complex64::ONE);
    x.as_slice().to_vec()
}

/// Calls `solve_upper_triangular` of `nalgebra`. It substitutes backward by ordinary complex
/// arithmetic, reading nothing of `lu` but the part on and above the diagonal, and gives up
/// at a zero on the diagonal; the result is named by [`upper_solution`]. A solution is as long
/// as the right-hand side.
#[verifier::external_body]
fn solve_upper(lu: &Vec<Complex64>, n: usize, b: &Vec<Complex64>) -> (x: Option<Vec<Complex64>>)
    requires
        lu@.len() == n * n,
        b@.len() == n,
    ensures
        match x {
            Some(v) => upper_solution(lu@, n as nat, b@) == Some(v@) && v@.len() == n,
            None => upper_solution(lu@, n as nat, b@) is None,
        },
{
    let m = nalgebra::DMatrix::<Complex64>::from_column_slice(n, n, lu);
    let rhs = nalgebra::DVector::<Complex64>::from_column_slice(b);
    m.solve_upper_triangular(&rhs).map(|x| x.as_slice().to_vec())
}

/// Calls `num_complex::Complex::new` on two whole numbers, which double precision holds
/// exactly; the result is named by [`whole_complex`].
#[verifier::external_body]
fn complex_from_whole(re: i32, im: i32) -> (z: Complex64)
    ensures
        z == whole_complex(re as int, im as int),
{
    Complex64::new(re.into(), im.into())
}

/// `s` with the entries at `i` and `j` exchanged.
pub open spec fn exchanged<A>(s: Seq<A>, i: int, j: int) -> Seq<A> {
    s.update(i, s[j]).update(j, s[i])
}

/// `s` after the first `m` row exchanges: row `k` with row `ipiv[k]`, in turn.
pub open spec fn pivoted<A>(s: Seq<A>, ipiv: Seq<i32>, m: nat) -> Seq<A>
    decreases m,
{
    if m == 0 {
        s
    } else {
        exchanged(pivoted(s, ipiv, (m - 1) as nat), m - 1, ipiv[m - 1] as int)
    }
}

/// The solution of `A·x = b` by way of the decomposition of the `n×n` matrix `a`: the rows of
/// `b` in the order of the decomposition, then forward and backward substitution.
pub open spec fn system_solution(a: Seq<Complex64>, n: nat, b: Seq<Complex64>) -> Option<
    Seq<Complex64>,
> {
    let lu = lu_parts(a, n).0;
    upper_solution(lu, n, unit_lower_solution(lu, n, gather(b, lu_parts(a, n).1)))
}

/// What is handed back in place of a solution where there is none: `n` zeros.
pub open spec fn all_zero(n: nat) -> Seq<Complex64> {
    Seq::new(n, |i: int| whole_complex(0, 0))
}

/// Dense LU factorisation result.
///
/// Stores the LU factors and the pivot indices, ready for use with [`DenseLu::solve`].
pub struct DenseLu {
    /// LU factors (L below the diagonal, U on and above, compact storage), column after column.
    pub a: Vec<Complex64>,
    /// Pivot indices: row `k` was exchanged with row `ipiv[k]`, counted from zero.
    pub ipiv: Vec<i32>,
    /// Matrix dimension.
    pub n: usize,
}

impl DenseLu {
    /// The factors are those of an `n×n` matrix, and every pivot stands at or below the row
    /// that it is exchanged with.
    pub open spec fn wf(self) -> bool {
        &&& self.a@.len() == self.n * self.n
        &&& self.ipiv@.len() == self.n
        &&& forall|k: int| 0 <= k < self.n ==> k <= #[trigger] self.ipiv@[k] < self.n
    }

    /// The right-hand side with its rows exchanged as those of the matrix were.
    pub open spec fn permuted(self, b: Seq<Complex64>) -> Seq<Complex64> {
        pivoted(b, self.ipiv@, self.n as nat)
    }

    /// The solution for the right-hand side `b`: forward, then backward substitution.
    pub open spec fn solution(self, b: Seq<Complex64>) -> Option<Seq<Complex64>> {
        upper_solution(
            self.a@,
            self.n as nat,
            unit_lower_solution(self.a@, self.n as nat, self.permuted(b)),
        )
    }

    /// The factors and the row exchanges are those of the decomposition of `a`, whose rows are all
    /// listed once: exchanging rows puts them in the order of the decomposition, and solving with
    /// the factors gives what the decomposition gives.
    pub open spec fn factorises(self, a: Seq<Complex64>) -> bool {
        let n = self.n as nat;
        &&& self.wf()
        &&& self.a@ == lu_parts(a, n).0
        &&& is_row_order(lu_parts(a, n).1, n)
        &&& forall|b: Seq<Complex64>|
            b.len() == n ==> #[trigger] self.permuted(b) == gather(b, lu_parts(a, n).1)
        &&& forall|b: Seq<Complex64>|
            b.len() == n ==> #[trigger] self.solution(b) == system_solution(a, n, b)
    }

    /// Factorises a dense `n×n` matrix that is stored column after column.
    pub fn factorize(a: Vec<Complex64>, n: usize) -> (r: Result<Self, String>)
        requires
            a@.len() == n * n,
            n <= i32::MAX,
        ensures
            r matches Ok(lu) && {
                &&& lu.n == n
                &&& lu.factorises(a@)
                &&& lu.wf()
                &&& lu.a@ == lu_parts(a@, n as nat).0
                &&& forall|b: Seq<Complex64>|
                    b.len() == n ==> #[trigger] lu.permuted(b) == gather(
                        b,
                        lu_parts(a@, n as nat).1,
                    )
                &&& forall|b: Seq<Complex64>|
                    b.len() == n ==> #[trigger] lu.solution(b) == system_solution(a@, n as nat, b)
            },
    {
        let (factors, order) = lu_decompose(&a, n);
        let ipiv = exchanges_of(&order);
        let lu = DenseLu { a: factors, ipiv, n };
        proof {
            assert forall|b: Seq<Complex64>| b.len() == n implies #[trigger] lu.permuted(b)
                == gather(b, order@) by {
                lemma_pivoted_gathers(b, row_numbers(n as nat), lu.ipiv@, n as nat);
                assert(gather(b, row_numbers(n as nat)) =~= b);
            }
            assert forall|b: Seq<Complex64>| b.len() == n implies #[trigger] lu.solution(b)
                == system_solution(a@, n as nat, b) by {
                assert(lu.permuted(b) == gather(b, order@));
            }
        }
        Ok(lu)
    }

    /// The right-hand side with its rows exchanged as those of the matrix were.
    pub fn permute(&self, b: &[Complex64]) -> (r: Vec<Complex64>)
        requires
            self.wf(),
            b@.len() == self.n,
        ensures
            r@ == self.permuted(b@),
            r@.len() == self.n,
    {
        let n = self.n;
        let mut rhs: Vec<Complex64> = crate::vector::copied(b);
        let mut k: usize = 0;
        while k < n
            invariant
                k <= n,
                n == self.n,
                self.wf(),
                rhs@.len() == n,
                rhs@ == pivoted(b@, self.ipiv@, k as nat),
            decreases n - k,
        {
            let j = self.ipiv[k] as usize;
            let (p, q) = (rhs[k], rhs[j]);
            rhs.set(k, q);
            rhs.set(j, p);
            k = k + 1;
        }
        rhs
    }

    /// Solves `A·x = b` with the factors of `A`. Where `A` is singular the result is zero.
    pub fn solve(&self, b: &[Complex64]) -> (x: Vec<Complex64>)
        requires
            self.wf(),
            self.n >= 1,
            b@.len() == self.n,
        ensures
            x@ == (match self.solution(b@) {
                Some(v) => v,
                None => all_zero(self.n as nat),
            }),
            x@.len() == self.n,
    {
        let y = solve_unit_lower(&self.a, self.n, &self.permute(b));
        or_zeros(solve_upper(&self.a, self.n, &y), self.n)
    }
}

/// The solution, or `n` zeros where there is none.
pub fn or_zeros(solution: Option<Vec<Complex64>>, n: usize) -> (x: Vec<Complex64>)
    ensures
        match solution {
            Some(v) => x@ == v@,
            None => x@ == all_zero(n as nat),
        },
{
    match solution {
        Some(x) => x,
        None => {
            let x = crate::vector::filled(n, complex_from_whole(0, 0));
            assert(x@ =~= all_zero(n as nat));
            x
        },
    }
}

/// The row numbers in order.
pub open spec fn row_numbers(n: nat) -> Seq<usize> {
    Seq::new(n, |i: int| i as usize)
}

/// Exchanging rows of picked entries is exchanging the picks.
proof fn lemma_pivoted_gathers<A>(v: Seq<A>, rows: Seq<usize>, ipiv: Seq<i32>, m: nat)
    requires
        m <= ipiv.len() == rows.len(),
        forall|k: int| 0 <= k < ipiv.len() ==> k <= #[trigger] ipiv[k] < ipiv.len(),
    ensures
        pivoted(gather(v, rows), ipiv, m) == gather(v, pivoted(rows, ipiv, m)),
        pivoted(rows, ipiv, m).len() == rows.len(),
    decreases m,
{
    if m > 0 {
        lemma_pivoted_gathers(v, rows, ipiv, (m - 1) as nat);
        let before = pivoted(rows, ipiv, (m - 1) as nat);
        assert(exchanged(gather(v, before), m - 1, ipiv[m - 1] as int) =~= gather(
            v,
            exchanged(before, m - 1, ipiv[m - 1] as int),
        ));
    }
}

/// The row exchanges that lead to the given order of the rows, each with a row at or below.
pub fn exchanges_of(order: &Vec<usize>) -> (ipiv: Vec<i32>)
    requires
        is_row_order(order@, order@.len()),
        order@.len() <= i32::MAX,
    ensures
        ipiv@.len() == order@.len(),
        forall|k: int| 0 <= k < ipiv@.len() ==> k <= #[trigger] ipiv@[k] < ipiv@.len(),
        pivoted(row_numbers(order@.len()), ipiv@, ipiv@.len()) == order@,
{
    let n = order.len();
    let mut current: Vec<usize> = crate::eigen::block::index_range(n);
    assert(current@ =~= row_numbers(n as nat));
    let mut ipiv: Vec<i32> = Vec::new();
    let mut k: usize = 0;
    while k < n
        invariant
            k <= n,
            n == order@.len(),
            n <= i32::MAX,
            is_row_order(order@, n as nat),
            is_row_order(current@, n as nat),
            ipiv@.len() == k,
            forall|c: int| 0 <= c < k ==> c <= #[trigger] ipiv@[c] < n,
            current@ == pivoted(row_numbers(n as nat), ipiv@, k as nat),
            forall|c: int| 0 <= c < k ==> current@[c] == order@[c],
        decreases n - k,
    {
        let ghost row = order@[k as int];
        proof {
            lemma_row_listed(current@, n as nat, row);
        }
        let ghost at = choose|c: int| 0 <= c < n && current@[c] == row;
        proof {
            if at < k {
                assert(order@[at] == order@[k as int]);
            }
        }
        let mut j: usize = k;
        while current[j] != order[k]
            invariant
                k <= j <= at < n,
                n == order@.len(),
                n == current@.len(),
                k < n,
                current@[at] == row,
                row == order@[k as int],
            decreases at - j,
        {
            j = j + 1;
        }
        let ghost before = current@;
        let ghost steps = ipiv@;
        let (p, q) = (current[k], current[j]);
        current.set(k, q);
        current.set(j, p);
        ipiv.push(j as i32);
        proof {
            lemma_pivoted_prefix(row_numbers(n as nat), steps, ipiv@, k as nat);
            assert(current@ =~= exchanged(before, k as int, j as int));
            assert forall|a: int, b: int| 0 <= a < b < n implies #[trigger] current@[a]
                != #[trigger] current@[b] by {
                let a0 = exchange_index(a, k as int, j as int);
                let b0 = exchange_index(b, k as int, j as int);
                assert(current@[a] == before[a0] && current@[b] == before[b0]);
                assert(before[a0] != before[b0]) by {
                    if a0 < b0 {
                    } else {
                        assert(before[b0] != before[a0]);
                    }
                }
            }
        }
        k = k + 1;
    }
    assert(current@ =~= order@);
    ipiv
}

/// Where the entry at position `i` stood before `a` and `b` were exchanged.
spec fn exchange_index(i: int, a: int, b: int) -> int {
    if i == a {
        b
    } else if i == b {
        a
    } else {
        i
    }
}

/// The first exchanges decide alone what they do.
proof fn lemma_pivoted_prefix<A>(s: Seq<A>, first: Seq<i32>, second: Seq<i32>, m: nat)
    requires
        m <= first.len(),
        m <= second.len(),
        forall|k: int| 0 <= k < m ==> first[k] == second[k],
    ensures
        pivoted(s, first, m) == pivoted(s, second, m),
    decreases m,
{
    if m > 0 {
        lemma_pivoted_prefix(s, first, second, (m - 1) as nat);
    }
}

/// A row order holds every row.
proof fn lemma_row_listed(order: Seq<usize>, n: nat, row: usize)
    requires
        is_row_order(order, n),
        row < n,
    ensures
        exists|c: int| 0 <= c < n && order[c] == row,
{
    crate::order::lemma_all_listed(order, n, row);
}

} // verus!
