//! What the two-dimensional transforms and the BTTB product compute, in exact arithmetic.
use crate::bttb::{
    bttb_product, column_of, columns_transformed, convolved, distance, embedded_kernel, padded,
    pointwise, row_of, rows_transformed, transform2d,
};
use crate::complex::Cplx;
use crate::exact::{
    is_ring, lemma_ring, lemma_times_nought, lemma_total_front, lemma_total_rotated,
    lemma_total_rows, lemma_total_same, lemma_total_swap, lemma_total_times, total,
};
use crate::fft::{is_power_of_two, lemma_transform_length, transform};
use crate::fourier::{
    count, counts, exact, lemma_complex_ring, lemma_root_remainder, lemma_root_sum,
    lemma_transform_is_dft, lemma_transform_roundtrip, root,
};
use crate::index::{lemma_position, lemma_row_and_column};
use crate::scalar::{Field, Real};
use vstd::prelude::*;

verus! {

/// A row of a matrix with transformed rows.
proof fn lemma_row_transformed<T: Real>(s: Seq<Cplx<T>>, nx: nat, ny: nat, inv: bool, iy: int)
    requires
        is_power_of_two(nx),
        0 <= iy < ny,
    ensures
        row_of(rows_transformed(s, nx, ny, inv), nx, iy) == transform(row_of(s, nx, iy), inv),
{
    let t = rows_transformed(s, nx, ny, inv);
    lemma_transform_length(row_of(s, nx, iy), inv);
    assert forall|ix: int| 0 <= ix < nx implies row_of(t, nx, iy)[ix] == transform(
        row_of(s, nx, iy),
        inv,
    )[ix] by {
        lemma_position(iy, ix, ny as int, nx as int);
    }
    assert(row_of(t, nx, iy) =~= transform(row_of(s, nx, iy), inv));
}

/// A column of a matrix with transformed columns.
proof fn lemma_column_transformed<T: Real>(s: Seq<Cplx<T>>, nx: nat, ny: nat, inv: bool, ix: int)
    requires
        is_power_of_two(ny),
        0 <= ix < nx,
    ensures
        column_of(columns_transformed(s, nx, ny, inv), nx, ny, ix) == transform(
            column_of(s, nx, ny, ix),
            inv,
        ),
{
    let t = columns_transformed(s, nx, ny, inv);
    lemma_transform_length(column_of(s, nx, ny, ix), inv);
    assert forall|iy: int| 0 <= iy < ny implies column_of(t, nx, ny, ix)[iy] == transform(
        column_of(s, nx, ny, ix),
        inv,
    )[iy] by {
        lemma_position(iy, ix, ny as int, nx as int);
    }
    assert(column_of(t, nx, ny, ix) =~= transform(column_of(s, nx, ny, ix), inv));
}

/// The entry of a matrix with transformed rows, as a sum.
proof fn lemma_rows_entry<T: Real>(
    s: Seq<Cplx<T>>,
    nx: nat,
    ny: nat,
    inv: bool,
    iy: int,
    ix: int,
)
    requires
        exact::<T>(),
        is_power_of_two(nx),
        0 <= iy < ny,
        0 <= ix < nx,
    ensures
        rows_transformed(s, nx, ny, inv)[iy * nx + ix] == total(
            nx,
            |jx: int| s[iy * nx + jx].times(root::<T>(nx, (jx * ix) as nat, inv)),
        ),
{
    let row = row_of(s, nx, iy);
    lemma_position(iy, ix, ny as int, nx as int);
    lemma_transform_is_dft(row, inv, ix);
    lemma_total_same(
        nx,
        |jx: int| row[jx].times(root::<T>(row.len(), (jx * ix) as nat, inv)),
        |jx: int| s[iy * nx + jx].times(root::<T>(nx, (jx * ix) as nat, inv)),
    );
}

/// The entry of a matrix with transformed columns, as a sum.
proof fn lemma_columns_entry<T: Real>(
    s: Seq<Cplx<T>>,
    nx: nat,
    ny: nat,
    inv: bool,
    iy: int,
    ix: int,
)
    requires
        exact::<T>(),
        is_power_of_two(ny),
        0 <= iy < ny,
        0 <= ix < nx,
    ensures
        columns_transformed(s, nx, ny, inv)[iy * nx + ix] == total(
            ny,
            |jy: int| s[jy * nx + ix].times(root::<T>(ny, (jy * iy) as nat, inv)),
        ),
{
    let column = column_of(s, nx, ny, ix);
    lemma_position(iy, ix, ny as int, nx as int);
    lemma_transform_is_dft(column, inv, iy);
    lemma_total_same(
        ny,
        |jy: int| column[jy].times(root::<T>(column.len(), (jy * iy) as nat, inv)),
        |jy: int| s[jy * nx + ix].times(root::<T>(ny, (jy * iy) as nat, inv)),
    );
}

/// Rows and columns can be transformed in either order.
proof fn lemma_rows_and_columns<T: Real>(
    s: Seq<Cplx<T>>,
    nx: nat,
    ny: nat,
    across: bool,
    down: bool,
)
    requires
        exact::<T>(),
        is_power_of_two(nx),
        is_power_of_two(ny),
    ensures
        rows_transformed(columns_transformed(s, nx, ny, down), nx, ny, across)
            == columns_transformed(rows_transformed(s, nx, ny, across), nx, ny, down),
{
    lemma_complex_ring::<T>();
    let first = columns_transformed(s, nx, ny, down);
    let second = rows_transformed(s, nx, ny, across);
    let (left, right) = (
        rows_transformed(first, nx, ny, across),
        columns_transformed(second, nx, ny, down),
    );
    assert forall|p: int| 0 <= p < ny * nx implies left[p] == right[p] by {
        lemma_row_and_column(p, ny as int, nx as int);
        let (iy, ix) = (p / nx as int, p % nx as int);
        let x = |jx: int| root::<T>(nx, (jx * ix) as nat, across);
        let y = |jy: int| root::<T>(ny, (jy * iy) as nat, down);
        let f = |jx: int, jy: int| s[jy * nx + jx].times(y(jy)).times(x(jx));
        lemma_rows_entry(first, nx, ny, across, iy, ix);
        lemma_columns_entry(second, nx, ny, down, iy, ix);
        lemma_total_swap(nx, ny, f);
        let outer = |jx: int| first[iy * nx + jx].times(x(jx));
        let nested = |jx: int| total(ny, |jy: int| f(jx, jy));
        assert forall|jx: int| 0 <= jx < nx implies #[trigger] outer(jx) == nested(jx) by {
            lemma_columns_entry(s, nx, ny, down, iy, jx);
            let column = |jy: int| s[jy * nx + jx].times(y(jy));
            lemma_total_times(ny, x(jx), column);
            lemma_total_same(
                ny,
                |jy: int| s[jy * nx + jx].times(root::<T>(ny, (jy * iy) as nat, down)),
                column,
            );
            lemma_total_same(ny, |jy: int| column(jy).times(x(jx)), |jy: int| f(jx, jy));
        }
        lemma_total_same(nx, outer, nested);
        lemma_total_same(
            nx,
            |jx: int| first[iy * nx + jx].times(root::<T>(nx, (jx * ix) as nat, across)),
            outer,
        );
        let across_first = |jy: int| second[jy * nx + ix].times(y(jy));
        let swapped = |jy: int| total(nx, |jx: int| f(jx, jy));
        assert forall|jy: int| 0 <= jy < ny implies #[trigger] across_first(jy) == swapped(jy) by {
            lemma_rows_entry(s, nx, ny, across, jy, ix);
            let row = |jx: int| s[jy * nx + jx].times(x(jx));
            lemma_total_times(nx, y(jy), row);
            lemma_total_same(
                nx,
                |jx: int| s[jy * nx + jx].times(root::<T>(nx, (jx * ix) as nat, across)),
                row,
            );
            let scaled_row = |jx: int| row(jx).times(y(jy));
            let inner = |jx: int| f(jx, jy);
            assert forall|jx: int| 0 <= jx < nx implies #[trigger] scaled_row(jx) == inner(jx) by {
                let v = s[jy * nx + jx];
                lemma_ring(v, x(jx), y(jy));
                lemma_ring(v, y(jy), x(jx));
                lemma_ring(x(jx), y(jy), v);
            }
            lemma_total_same(nx, scaled_row, inner);
        }
        lemma_total_same(ny, across_first, swapped);
        lemma_total_same(
            ny,
            |jy: int| second[jy * nx + ix].times(root::<T>(ny, (jy * iy) as nat, down)),
            across_first,
        );
    }
    assert(left =~= right);
}

/// In exact arithmetic the inverse two-dimensional transform undoes the forward one, up to the
/// number of entries.
pub proof fn lemma_transform2d_roundtrip<T: Real>(s: Seq<Cplx<T>>, nx: nat, ny: nat)
    requires
        exact::<T>(),
        is_power_of_two(nx),
        is_power_of_two(ny),
        s.len() == ny * nx,
    ensures
        transform2d(transform2d(s, nx, ny, false), nx, ny, true) == Seq::new(
            ny * nx,
            |p: int| s[p].times(count::<Cplx<T>>(nx)).times(count::<Cplx<T>>(ny)),
        ),
{
    let forward = rows_transformed(s, nx, ny, false);
    let back = rows_transformed(forward, nx, ny, true);
    lemma_rows_and_columns(forward, nx, ny, true, false);
    let both = columns_transformed(columns_transformed(back, nx, ny, false), nx, ny, true);
    assert(transform2d(transform2d(s, nx, ny, false), nx, ny, true) == both);
    let want = Seq::new(
        ny * nx,
        |p: int| s[p].times(count::<Cplx<T>>(nx)).times(count::<Cplx<T>>(ny)),
    );
    assert forall|p: int| 0 <= p < ny * nx implies both[p] == want[p] by {
        lemma_row_and_column(p, ny as int, nx as int);
        let (iy, ix) = (p / nx as int, p % nx as int);
        lemma_row_transformed(s, nx, ny, false, iy);
        lemma_transform_roundtrip(row_of(s, nx, iy));
        assert(back[p] == s[p].times(count::<Cplx<T>>(nx)));
        lemma_column_transformed(back, nx, ny, false, ix);
        lemma_transform_roundtrip(column_of(back, nx, ny, ix));
    }
    assert(both =~= want);
}

/// The product of the roots of unity that belong to position `a` of the matrix and position `p`
/// of its transform.
pub open spec fn character<T: Real>(nx: nat, ny: nat, a: int, p: int, inv: bool) -> Cplx<T> {
    root::<T>(nx, ((a % nx as int) * (p % nx as int)) as nat, inv).times(
        root::<T>(ny, ((a / nx as int) * (p / nx as int)) as nat, inv),
    )
}

/// In exact arithmetic the two-dimensional transform is the two-dimensional discrete Fourier
/// transform.
pub proof fn lemma_transform2d_is_dft<T: Real>(
    s: Seq<Cplx<T>>,
    nx: nat,
    ny: nat,
    inv: bool,
    p: int,
)
    requires
        exact::<T>(),
        is_power_of_two(nx),
        is_power_of_two(ny),
        0 <= p < ny * nx,
    ensures
        transform2d(s, nx, ny, inv)[p] == total(
            ny * nx,
            |a: int| s[a].times(character::<T>(nx, ny, a, p, inv)),
        ),
{
    lemma_complex_ring::<T>();
    lemma_row_and_column(p, ny as int, nx as int);
    let (iy, ix) = (p / nx as int, p % nx as int);
    let x = |jx: int| root::<T>(nx, (jx * ix) as nat, inv);
    let y = |jy: int| root::<T>(ny, (jy * iy) as nat, inv);
    let half = rows_transformed(s, nx, ny, inv);
    let flat = |a: int| s[a].times(character::<T>(nx, ny, a, p, inv));
    lemma_columns_entry(half, nx, ny, inv, iy, ix);
    lemma_total_rows(ny, nx, flat);
    let left = |jy: int| half[jy * nx + ix].times(root::<T>(ny, (jy * iy) as nat, inv));
    let right = |jy: int| total(nx, |jx: int| flat(jy * nx + jx));
    assert forall|jy: int| 0 <= jy < ny implies #[trigger] left(jy) == right(jy) by {
        lemma_rows_entry(s, nx, ny, inv, jy, ix);
        let row = |jx: int| s[jy * nx + jx].times(root::<T>(nx, (jx * ix) as nat, inv));
        lemma_total_times(nx, y(jy), row);
        let scaled_row = |jx: int| row(jx).times(y(jy));
        let inner = |jx: int| flat(jy * nx + jx);
        assert forall|jx: int| 0 <= jx < nx implies #[trigger] scaled_row(jx) == inner(jx) by {
            lemma_position(jy, jx, ny as int, nx as int);
            lemma_ring(s[jy * nx + jx], x(jx), y(jy));
        }
        lemma_total_same(nx, scaled_row, inner);
    }
    lemma_total_same(ny, left, right);
}

/// The position at which `b` is added to `a`, row to row and column to column, with wrapping.
pub open spec fn wrapped_sum(a: int, b: int, nx: nat, ny: nat) -> int {
    ((a / nx as int + b / nx as int) % ny as int) * nx + (a % nx as int + b % nx as int)
        % nx as int
}

/// The position at which `b` is taken from `c`, row from row and column from column, with
/// wrapping.
pub open spec fn wrapped_difference(c: int, b: int, nx: nat, ny: nat) -> int {
    ((c / nx as int + ny - b / nx as int) % ny as int) * nx + (c % nx as int + nx - b % nx as int)
        % nx as int
}

/// The cyclic convolution of two matrices.
pub open spec fn cyclic<T: Real>(
    k: Seq<Cplx<T>>,
    x: Seq<Cplx<T>>,
    nx: nat,
    ny: nat,
) -> Seq<Cplx<T>> {
    Seq::new(
        ny * nx,
        |c: int|
            total(ny * nx, |b: int| k[wrapped_difference(c, b, nx, ny)].times(x[b])),
    )
}

/// Adding and taking away again.
proof fn lemma_wrap(i: int, b: int, n: int)
    requires
        0 <= i < n,
        0 <= b < n,
    ensures
        0 <= (i + b) % n < n,
        ((i + b) % n + n - b) % n == i,
{
    if i + b < n {
        vstd::arithmetic::div_mod::lemma_small_mod((i + b) as nat, n as nat);
        vstd::arithmetic::div_mod::lemma_mod_add_multiples_vanish(i, n);
        vstd::arithmetic::div_mod::lemma_small_mod(i as nat, n as nat);
    } else {
        vstd::arithmetic::div_mod::lemma_mod_add_multiples_vanish(i + b - n, n);
        vstd::arithmetic::div_mod::lemma_small_mod((i + b - n) as nat, n as nat);
        vstd::arithmetic::div_mod::lemma_small_mod(i as nat, n as nat);
    }
}

/// The sum over all positions can be taken in any wrapped order.
proof fn lemma_total_wrapped<T: Real>(nx: nat, ny: nat, b: int, h: spec_fn(int) -> Cplx<T>)
    requires
        is_ring::<Cplx<T>>(),
        0 <= b < ny * nx,
    ensures
        total(ny * nx, |a: int| h(wrapped_sum(a, b, nx, ny))) == total(ny * nx, h),
{
    lemma_row_and_column(b, ny as int, nx as int);
    let (by, bx) = (b / nx as int, b % nx as int);
    let moved = |a: int| h(wrapped_sum(a, b, nx, ny));
    let line = |y: int| total(nx, |x: int| h(y * nx + x));
    lemma_total_rows(ny, nx, moved);
    lemma_total_rows(ny, nx, h);
    let rows = |y: int| total(nx, |x: int| moved(y * nx + x));
    let turned = |y: int| line((y + by) % ny as int);
    assert forall|y: int| 0 <= y < ny implies #[trigger] rows(y) == turned(y) by {
        let at = (y + by) % ny as int;
        let g = |x: int| h(at * nx + x);
        lemma_total_rotated(nx, bx as nat, g);
        let inner = |x: int| moved(y * nx + x);
        let rotated = |x: int| g((x + bx as nat) % nx as int);
        assert forall|x: int| 0 <= x < nx implies #[trigger] inner(x) == rotated(x) by {
            lemma_position(y, x, ny as int, nx as int);
        }
        lemma_total_same(nx, inner, rotated);
        lemma_total_same(nx, g, |x: int| h(at * nx + x));
    }
    lemma_total_same(ny, rows, turned);
    lemma_total_rotated(ny, by as nat, line);
    lemma_total_same(ny, turned, |y: int| line((y + by as nat) % ny as int));
}

/// Characters of wrapped sums are products.
proof fn lemma_character_sum<T: Real>(nx: nat, ny: nat, a: int, b: int, p: int)
    requires
        exact::<T>(),
        0 <= a < ny * nx,
        0 <= b < ny * nx,
        0 <= p < ny * nx,
    ensures
        character::<T>(nx, ny, wrapped_sum(a, b, nx, ny), p, false) == character::<T>(
            nx,
            ny,
            a,
            p,
            false,
        ).times(character::<T>(nx, ny, b, p, false)),
        0 <= wrapped_sum(a, b, nx, ny) < ny * nx,
        wrapped_difference(wrapped_sum(a, b, nx, ny), b, nx, ny) == a,
{
    lemma_complex_ring::<T>();
    lemma_row_and_column(a, ny as int, nx as int);
    lemma_row_and_column(b, ny as int, nx as int);
    lemma_row_and_column(p, ny as int, nx as int);
    let (ay, ax) = ((a / nx as int) as nat, (a % nx as int) as nat);
    let (by, bx) = ((b / nx as int) as nat, (b % nx as int) as nat);
    let (py, px) = ((p / nx as int) as nat, (p % nx as int) as nat);
    lemma_wrap(ay as int, by as int, ny as int);
    lemma_wrap(ax as int, bx as int, nx as int);
    lemma_position((ay + by) as int % ny as int, (ax + bx) as int % nx as int, ny as int, nx as int);
    lemma_root_remainder::<T>(nx, ax + bx, px, false);
    lemma_root_remainder::<T>(ny, ay + by, py, false);
    assert((ax + bx) * px == ax * px + bx * px) by (nonlinear_arith);
    assert((ay + by) * py == ay * py + by * py) by (nonlinear_arith);
    lemma_root_sum::<T>(nx, ax * px, bx * px, false);
    lemma_root_sum::<T>(ny, ay * py, by * py, false);
    let (xa, xb) = (root::<T>(nx, ax * px, false), root::<T>(nx, bx * px, false));
    let (ya, yb) = (root::<T>(ny, ay * py, false), root::<T>(ny, by * py, false));
    // (xa·xb)·(ya·yb) = (xa·ya)·(xb·yb)
    lemma_ring(xa, xb, ya.times(yb));
    lemma_ring(xb, ya, yb);
    lemma_ring(ya, xb, yb);
    lemma_ring(xa, ya, xb.times(yb));
}

/// The convolution theorem: in exact arithmetic the product of two transforms is the transform of
/// the cyclic convolution.
pub proof fn lemma_convolution<T: Real>(
    k: Seq<Cplx<T>>,
    x: Seq<Cplx<T>>,
    nx: nat,
    ny: nat,
    p: int,
)
    requires
        exact::<T>(),
        is_power_of_two(nx),
        is_power_of_two(ny),
        0 <= p < ny * nx,
    ensures
        transform2d(k, nx, ny, false)[p].times(transform2d(x, nx, ny, false)[p]) == transform2d(
            cyclic(k, x, nx, ny),
            nx,
            ny,
            false,
        )[p],
{
    lemma_complex_ring::<T>();
    let n = ny * nx;
    let z = cyclic(k, x, nx, ny);
    let chi = |a: int| character::<T>(nx, ny, a, p, false);
    lemma_transform2d_is_dft(k, nx, ny, false, p);
    lemma_transform2d_is_dft(x, nx, ny, false, p);
    lemma_transform2d_is_dft(z, nx, ny, false, p);
    let fk = |a: int| k[a].times(chi(a));
    let fx = |b: int| x[b].times(chi(b));
    lemma_total_same(n, |a: int| k[a].times(character::<T>(nx, ny, a, p, false)), fk);
    lemma_total_same(n, |b: int| x[b].times(character::<T>(nx, ny, b, p, false)), fx);
    let kp = total(n, fk);
    lemma_total_times(n, kp, fx);
    let f = |b: int, c: int| k[wrapped_difference(c, b, nx, ny)].times(x[b]).times(chi(c));
    let outer = |b: int| kp.times(fx(b));
    let nested = |b: int| total(n, |c: int| f(b, c));
    assert forall|b: int| 0 <= b < n implies #[trigger] outer(b) == nested(b) by {
        lemma_times_wave(k, x[b], nx, ny, b, p);
        lemma_total_same(
            n,
            |c: int|
                k[wrapped_difference(c, b, nx, ny)].times(x[b]).times(
                    character::<T>(nx, ny, c, p, false),
                ),
            |c: int| f(b, c),
        );
    }
    lemma_total_same(n, outer, nested);
    lemma_total_swap(n, n, f);
    let swapped = |c: int| total(n, |b: int| f(b, c));
    let fz = |c: int| z[c].times(character::<T>(nx, ny, c, p, false));
    assert forall|c: int| 0 <= c < n implies #[trigger] swapped(c) == fz(c) by {
        let terms = |b: int| k[wrapped_difference(c, b, nx, ny)].times(x[b]);
        lemma_total_times(n, chi(c), terms);
        lemma_total_same(n, |b: int| terms(b).times(chi(c)), |b: int| f(b, c));
        assert(z[c] == total(n, terms));
    }
    lemma_total_same(n, swapped, fz);
}

/// A transform times a multiple of one character.
proof fn lemma_times_wave<T: Real>(
    k: Seq<Cplx<T>>,
    factor: Cplx<T>,
    nx: nat,
    ny: nat,
    b: int,
    p: int,
)
    requires
        exact::<T>(),
        0 <= b < ny * nx,
        0 <= p < ny * nx,
    ensures
        total(ny * nx, |a: int| k[a].times(character::<T>(nx, ny, a, p, false))).times(
            factor.times(character::<T>(nx, ny, b, p, false)),
        ) == total(
            ny * nx,
            |c: int|
                k[wrapped_difference(c, b, nx, ny)].times(factor).times(
                    character::<T>(nx, ny, c, p, false),
                ),
        ),
{
    lemma_complex_ring::<T>();
    let n = ny * nx;
    let chi = |a: int| character::<T>(nx, ny, a, p, false);
    let fk = |a: int| k[a].times(character::<T>(nx, ny, a, p, false));
    let h = |c: int|
        k[wrapped_difference(c, b, nx, ny)].times(factor).times(
            character::<T>(nx, ny, c, p, false),
        );
    let weight = factor.times(chi(b));
    lemma_total_times(n, weight, fk);
    lemma_total_wrapped::<T>(nx, ny, b, h);
    let left = |a: int| fk(a).times(weight);
    let right = |a: int| h(wrapped_sum(a, b, nx, ny));
    assert forall|a: int| 0 <= a < n implies #[trigger] left(a) == right(a) by {
        lemma_character_sum::<T>(nx, ny, a, b, p);
        let (v, ca, cb) = (k[a], chi(a), chi(b));
        // (v·ca)·(factor·cb) = (v·factor)·(ca·cb)
        lemma_ring(v, ca, factor.times(cb));
        lemma_ring(ca, factor, cb);
        lemma_ring(factor, ca, cb);
        lemma_ring(v, factor, ca.times(cb));
    }
    lemma_total_same(n, left, right);
}

/// A sum of ones is the whole number.
proof fn lemma_count<T: Real>(n: nat)
    requires
        exact::<T>(),
    ensures
        count::<Cplx<T>>(n) == Cplx::on_axis(T::whole(n)),
    decreases n,
{
    let ones = |i: int| Cplx::<T>::unit();
    let zero = T::nought();
    lemma_ring(zero, zero, zero);
    if n > 0 {
        let less = (n - 1) as nat;
        lemma_count::<T>(less);
        assert(counts(zero, less));
        assert(ones(n - 1) == Cplx::<T>::unit());
    }
}

/// Whole numbers multiply.
proof fn lemma_whole_product<T: Real>(n: nat, m: nat)
    requires
        exact::<T>(),
    ensures
        T::whole(n * m) == T::whole(n).times(T::whole(m)),
    decreases m,
{
    let (wn, one) = (T::whole(n), T::unit());
    if m == 0 {
        assert(n * m == 0) by (nonlinear_arith)
            requires
                m == 0,
        ;
        lemma_times_nought(wn);
    } else {
        let less = (m - 1) as nat;
        assert(n * m == n * less + n) by (nonlinear_arith)
            requires
                m == less + 1,
        ;
        lemma_whole_product::<T>(n, less);
        crate::fourier::lemma_whole_sum::<T>(n * less, n);
        assert(counts(wn, less));
        lemma_ring(wn, T::whole(less), one);
    }
}

/// Multiplying by two counts and dividing by their product changes nothing.
proof fn lemma_unscaled<T: Real>(z: Cplx<T>, nx: nat, ny: nat)
    requires
        exact::<T>(),
        nx >= 1,
        ny >= 1,
    ensures
        z.times(count::<Cplx<T>>(nx)).times(count::<Cplx<T>>(ny)).stretched(
            T::unit().over(T::whole(ny * nx)),
        ) == z,
{
    let (zero, one) = (T::nought(), T::unit());
    lemma_complex_ring::<T>();
    lemma_count::<T>(nx);
    lemma_count::<T>(ny);
    let (wx, wy, w) = (T::whole(nx), T::whole(ny), T::whole(ny * nx));
    let (cx, cy) = (Cplx::on_axis(wx), Cplx::on_axis(wy));
    lemma_ring(z, cx, cy);
    lemma_ring(cx, cy, z);
    lemma_whole_product::<T>(ny, nx);
    lemma_times_nought(wy);
    lemma_times_nought(wx);
    lemma_times_nought(zero);
    lemma_ring(zero, zero, zero);
    crate::exact::lemma_negative(zero, zero);
    lemma_ring(w, zero, zero);
    assert(cy.times(cx) == Cplx::on_axis(w));
    assert(ny * nx >= 1) by (nonlinear_arith)
        requires
            nx >= 1,
            ny >= 1,
    ;
    let full = z.times(Cplx::on_axis(w));
    lemma_times_nought(z.re);
    lemma_times_nought(z.im);
    lemma_ring(z.re.times(w), zero, zero);
    lemma_ring(z.im.times(w), zero, zero);
    assert(full == (Cplx { re: z.re.times(w), im: z.im.times(w) }));
    let part = one.over(w);
    assert(counts(one, ny * nx));
    assert(part.times(w) == one);
    lemma_ring(part, w, w);
    lemma_ring(z.re, w, part);
    lemma_ring(z.im, w, part);
}

/// The distance between two indices.
pub open spec fn apart(i: int, j: int) -> int {
    if i >= j {
        i - j
    } else {
        j - i
    }
}

/// In exact arithmetic the result of a BTTB product is the product of the block Toeplitz matrix
/// with Toeplitz blocks and the vector: entry `(iy, ix)` is the sum of all entries `(jy, jx)` of
/// the vector, each times the entry of the kernel at their distance.
pub proof fn lemma_bttb_product<T: Real>(
    kernel: Seq<Cplx<T>>,
    x: Seq<Cplx<T>>,
    nx: nat,
    ny: nat,
    iy: int,
    ix: int,
)
    requires
        exact::<T>(),
        is_power_of_two(2 * nx),
        is_power_of_two(2 * ny),
        0 <= iy < ny,
        0 <= ix < nx,
    ensures
        bttb_product(kernel, x, nx, ny)[iy * nx + ix] == total(
            ny,
            |jy: int|
                total(
                    nx,
                    |jx: int|
                        kernel[apart(iy, jy) * nx + apart(ix, jx)].times(x[jy * nx + jx]),
                ),
        ),
{
    lemma_complex_ring::<T>();
    let (szx, szy) = (2 * nx, 2 * ny);
    let n = szy * szx;
    let (ke, xe) = (embedded_kernel(kernel, nx, ny), padded(x, nx, ny));
    let z = cyclic(ke, xe, szx, szy);
    let spectrum = pointwise(
        transform2d(ke, szx, szy, false),
        transform2d(xe, szx, szy, false),
    );
    assert forall|p: int| 0 <= p < n implies spectrum[p] == transform2d(z, szx, szy, false)[p] by {
        lemma_convolution(ke, xe, szx, szy, p);
    }
    assert(spectrum =~= transform2d(z, szx, szy, false));
    lemma_transform2d_roundtrip(z, szx, szy);
    let e = iy * szx + ix;
    lemma_position(iy, ix, szy as int, szx as int);
    lemma_position(iy, ix, ny as int, nx as int);
    assert(convolved(ke, xe, szx, szy)[e] == z[e].times(count::<Cplx<T>>(szx)).times(
        count::<Cplx<T>>(szy),
    ));
    lemma_unscaled(z[e], szx, szy);
    assert(bttb_product(kernel, x, nx, ny)[iy * nx + ix] == z[e]);
    // The sum over the padded vector, row by row.
    let term = |b: int| ke[wrapped_difference(e, b, szx, szy)].times(xe[b]);
    lemma_total_rows(szy, szx, term);
    let line = |jy: int| total(szx, |jx: int| term(jy * szx + jx));
    let want = |jy: int|
        total(
            nx,
            |jx: int| kernel[apart(iy, jy) * nx + apart(ix, jx)].times(x[jy * nx + jx]),
        );
    assert forall|jy: int| ny <= jy < szy implies #[trigger] line(jy) == Cplx::<T>::nought() by {
        let row = |jx: int| term(jy * szx + jx);
        assert forall|jx: int| 0 <= jx < szx implies #[trigger] row(jx) == Cplx::<T>::nought() by {
            lemma_position(jy, jx, szy as int, szx as int);
            lemma_times_nought(ke[wrapped_difference(e, jy * szx + jx, szx, szy)]);
        }
        crate::exact::lemma_total_nought(szx, row);
    }
    lemma_total_front(ny, ny, line);
    assert forall|jy: int| 0 <= jy < ny implies #[trigger] line(jy) == want(jy) by {
        let row = |jx: int| term(jy * szx + jx);
        let inner = |jx: int|
            kernel[apart(iy, jy) * nx + apart(ix, jx)].times(x[jy * nx + jx]);
        assert forall|jx: int| nx <= jx < szx implies #[trigger] row(jx) == Cplx::<T>::nought() by {
            lemma_position(jy, jx, szy as int, szx as int);
            lemma_times_nought(ke[wrapped_difference(e, jy * szx + jx, szx, szy)]);
        }
        lemma_total_front(nx, nx, row);
        assert forall|jx: int| 0 <= jx < nx implies #[trigger] row(jx) == inner(jx) by {
            lemma_position(jy, jx, szy as int, szx as int);
            lemma_kernel_entry(kernel, nx, ny, iy, ix, jy, jx);
        }
        lemma_total_same(nx, row, inner);
    }
    lemma_total_same(ny, line, want);
}

/// The embedded kernel at the wrapped difference of two positions in the first quadrant.
proof fn lemma_kernel_entry<T: Real>(
    kernel: Seq<Cplx<T>>,
    nx: nat,
    ny: nat,
    iy: int,
    ix: int,
    jy: int,
    jx: int,
)
    requires
        0 <= iy < ny,
        0 <= ix < nx,
        0 <= jy < ny,
        0 <= jx < nx,
    ensures
        embedded_kernel(kernel, nx, ny)[wrapped_difference(
            iy * (2 * nx) + ix,
            jy * (2 * nx) + jx,
            2 * nx,
            2 * ny,
        )] == kernel[apart(iy, jy) * nx + apart(ix, jx)],
{
    let (szx, szy) = ((2 * nx) as int, (2 * ny) as int);
    lemma_position(iy, ix, szy, szx);
    lemma_position(jy, jx, szy, szx);
    let (dy, dx) = ((iy + szy - jy) % szy, (ix + szx - jx) % szx);
    lemma_wrapped_index(iy, jy, ny as int);
    lemma_wrapped_index(ix, jx, nx as int);
    lemma_position(dy, dx, szy, szx);
    assert(distance(dy, ny as int) == apart(iy, jy));
    assert(distance(dx, nx as int) == apart(ix, jx));
}

/// A difference wraps around twice the size.
proof fn lemma_wrapped_index(i: int, j: int, n: int)
    requires
        0 <= i < n,
        0 <= j < n,
    ensures
        (i + 2 * n - j) % (2 * n) == (if i >= j {
            i - j
        } else {
            i - j + 2 * n
        }),
{
    if i >= j {
        vstd::arithmetic::div_mod::lemma_mod_add_multiples_vanish(i - j, 2 * n);
        vstd::arithmetic::div_mod::lemma_small_mod((i - j) as nat, (2 * n) as nat);
    } else {
        vstd::arithmetic::div_mod::lemma_small_mod((i - j + 2 * n) as nat, (2 * n) as nat);
    }
}

} // verus!
