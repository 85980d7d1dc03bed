//! Products with block Toeplitz matrices with Toeplitz blocks (BTTB), by the fast Fourier
//! transform.
use crate::complex::Cplx;
use crate::fft::{fft, is_power_of_two, transform};
use crate::index::{lemma_position, lemma_row_and_column};
use crate::scalar::{Field, Real};
use vstd::prelude::*;

verus! {

/// Row `iy` of a matrix with `nx` columns.
pub open spec fn row_of<A>(s: Seq<A>, nx: nat, iy: int) -> Seq<A> {
    Seq::new(nx, |ix: int| s[iy * nx + ix])
}

/// Column `ix` of a matrix with `ny` rows and `nx` columns.
pub open spec fn column_of<A>(s: Seq<A>, nx: nat, ny: nat, ix: int) -> Seq<A> {
    Seq::new(ny, |iy: int| s[iy * nx + ix])
}

/// Every row replaced by its transform.
pub open spec fn rows_transformed<T: Real>(
    s: Seq<Cplx<T>>,
    nx: nat,
    ny: nat,
    inv: bool,
) -> Seq<Cplx<T>> {
    Seq::new(
        ny * nx,
        |p: int| transform(row_of(s, nx, p / nx as int), inv)[p % nx as int],
    )
}

/// Every column replaced by its transform.
pub open spec fn columns_transformed<T: Real>(
    s: Seq<Cplx<T>>,
    nx: nat,
    ny: nat,
    inv: bool,
) -> Seq<Cplx<T>> {
    Seq::new(
        ny * nx,
        |p: int| transform(column_of(s, nx, ny, p % nx as int), inv)[p / nx as int],
    )
}

/// The two-dimensional transform of a matrix with `ny` rows and `nx` columns.
pub open spec fn transform2d<T: Real>(
    s: Seq<Cplx<T>>,
    nx: nat,
    ny: nat,
    inv: bool,
) -> Seq<Cplx<T>> {
    columns_transformed(rows_transformed(s, nx, ny, inv), nx, ny, inv)
}

/// A length that the transform takes.
pub open spec fn transformable(n: nat) -> bool {
    n <= 1 || is_power_of_two(n)
}

/// Replaces a matrix with `ny` rows and `nx` columns, stored row after row, by its
/// two-dimensional transform.
pub fn fft2d<T: Real>(buf: &mut Vec<Cplx<T>>, nx: usize, ny: usize, inv: bool)
    requires
        old(buf)@.len() == ny * nx,
        ny == 0 || transformable(nx as nat),
        nx == 0 || transformable(ny as nat),
    ensures
        final(buf)@ == transform2d(old(buf)@, nx as nat, ny as nat, inv),
        final(buf)@.len() == old(buf)@.len(),
{
    transform_rows(buf, nx, ny, inv);
    transform_columns(buf, nx, ny, inv);
}

fn transform_rows<T: Real>(buf: &mut Vec<Cplx<T>>, nx: usize, ny: usize, inv: bool)
    requires
        old(buf)@.len() == ny * nx,
        ny == 0 || transformable(nx as nat),
    ensures
        final(buf)@ == rows_transformed(old(buf)@, nx as nat, ny as nat, inv),
        final(buf)@.len() == old(buf)@.len(),
{
    let ghost s = buf@;
    let ghost want = rows_transformed(s, nx as nat, ny as nat, inv);
    proof {
        assert forall|p: int| 0 <= p < ny * nx implies (#[trigger] buf@[p]) == (if p / (nx as int)
            < 0 {
            want[p]
        } else {
            s[p]
        }) by {
            lemma_row_and_column(p, ny as int, nx as int);
        }
    }
    let mut iy: usize = 0;
    while iy < ny
        invariant
            iy <= ny,
            transformable(nx as nat) || ny == 0,
            s.len() == ny * nx,
            buf.len() == ny * nx,
            want == rows_transformed(s, nx as nat, ny as nat, inv),
            forall|p: int|
                0 <= p < ny * nx ==> (#[trigger] buf@[p]) == (if p / (nx as int) < iy {
                    want[p]
                } else {
                    s[p]
                }),
        decreases ny - iy,
    {
        let mut row: Vec<Cplx<T>> = Vec::new();
        let ghost source = row_of(s, nx as nat, iy as int);
        let mut ix: usize = 0;
        while ix < nx
            invariant
                ix <= nx,
                iy < ny,
                buf.len() == ny * nx,
                forall|p: int|
                    0 <= p < ny * nx ==> (#[trigger] buf@[p]) == (if p / (nx as int) < iy {
                        want[p]
                    } else {
                        s[p]
                    }),
                source == row_of(s, nx as nat, iy as int),
                row@.len() == ix,
                forall|c: int| 0 <= c < ix ==> row@[c] == source[c],
            decreases nx - ix,
        {
            proof {
                lemma_position(iy as int, ix as int, ny as int, nx as int);
            }
            row.push(buf[iy * nx + ix]);
            ix = ix + 1;
        }
        assert(row@ =~= source);
        fft(&mut row, inv);
        proof {
            assert forall|p: int| 0 <= p < ny * nx implies (#[trigger] buf@[p]) == (if p / (
            nx as int) < iy || (p / (nx as int) == iy && p % (nx as int) < 0) {
                want[p]
            } else {
                s[p]
            }) by {
                lemma_row_and_column(p, ny as int, nx as int);
            }
        }
        let mut ix: usize = 0;
        while ix < nx
            invariant
                ix <= nx,
                iy < ny,
                buf.len() == ny * nx,
                want == rows_transformed(s, nx as nat, ny as nat, inv),
                row@.len() == nx,
                row@ == transform(row_of(s, nx as nat, iy as int), inv),
                forall|p: int|
                    0 <= p < ny * nx ==> (#[trigger] buf@[p]) == (if p / (nx as int) < iy || (p / (
                    nx as int) == iy && p % (nx as int) < ix) {
                        want[p]
                    } else {
                        s[p]
                    }),
            decreases nx - ix,
        {
            proof {
                lemma_position(iy as int, ix as int, ny as int, nx as int);
            }
            let ghost before = buf@;
            buf.set(iy * nx + ix, row[ix]);
            proof {
                assert forall|p: int| 0 <= p < ny * nx implies (#[trigger] buf@[p]) == (if p / (
                nx as int) < iy || (p / (nx as int) == iy && p % (nx as int) < ix + 1) {
                    want[p]
                } else {
                    s[p]
                }) by {
                    lemma_row_and_column(p, ny as int, nx as int);
                    assert(before[p] == before[p]);
                }
            }
            ix = ix + 1;
        }
        proof {
            assert forall|p: int| 0 <= p < ny * nx implies (#[trigger] buf@[p]) == (if p / (
            nx as int) < iy + 1 {
                want[p]
            } else {
                s[p]
            }) by {
                lemma_row_and_column(p, ny as int, nx as int);
            }
        }
        iy = iy + 1;
    }
    proof {
        assert forall|p: int| 0 <= p < ny * nx implies (#[trigger] buf@[p]) == want[p] by {
            lemma_row_and_column(p, ny as int, nx as int);
        }
        assert(buf@ =~= want);
    }
}

fn transform_columns<T: Real>(buf: &mut Vec<Cplx<T>>, nx: usize, ny: usize, inv: bool)
    requires
        old(buf)@.len() == ny * nx,
        nx == 0 || transformable(ny as nat),
    ensures
        final(buf)@ == columns_transformed(old(buf)@, nx as nat, ny as nat, inv),
        final(buf)@.len() == old(buf)@.len(),
{
    let ghost s = buf@;
    let ghost want = columns_transformed(s, nx as nat, ny as nat, inv);
    proof {
        assert forall|p: int| 0 <= p < ny * nx implies (#[trigger] buf@[p]) == (if p % (nx as int)
            < 0 {
            want[p]
        } else {
            s[p]
        }) by {
            lemma_row_and_column(p, ny as int, nx as int);
        }
    }
    let mut ix: usize = 0;
    while ix < nx
        invariant
            ix <= nx,
            transformable(ny as nat) || nx == 0,
            s.len() == ny * nx,
            buf.len() == ny * nx,
            want == columns_transformed(s, nx as nat, ny as nat, inv),
            forall|p: int|
                0 <= p < ny * nx ==> (#[trigger] buf@[p]) == (if p % (nx as int) < ix {
                    want[p]
                } else {
                    s[p]
                }),
        decreases nx - ix,
    {
        let mut column: Vec<Cplx<T>> = Vec::new();
        let ghost source = column_of(s, nx as nat, ny as nat, ix as int);
        let mut iy: usize = 0;
        while iy < ny
            invariant
                iy <= ny,
                ix < nx,
                buf.len() == ny * nx,
                forall|p: int|
                    0 <= p < ny * nx ==> (#[trigger] buf@[p]) == (if p % (nx as int) < ix {
                        want[p]
                    } else {
                        s[p]
                    }),
                source == column_of(s, nx as nat, ny as nat, ix as int),
                column@.len() == iy,
                forall|c: int| 0 <= c < iy ==> column@[c] == source[c],
            decreases ny - iy,
        {
            proof {
                lemma_position(iy as int, ix as int, ny as int, nx as int);
            }
            column.push(buf[iy * nx + ix]);
            iy = iy + 1;
        }
        assert(column@ =~= source);
        fft(&mut column, inv);
        proof {
            assert forall|p: int| 0 <= p < ny * nx implies (#[trigger] buf@[p]) == (if p % (
            nx as int) < ix || (p % (nx as int) == ix && p / (nx as int) < 0) {
                want[p]
            } else {
                s[p]
            }) by {
                lemma_row_and_column(p, ny as int, nx as int);
            }
        }
        let mut iy: usize = 0;
        while iy < ny
            invariant
                iy <= ny,
                ix < nx,
                buf.len() == ny * nx,
                want == columns_transformed(s, nx as nat, ny as nat, inv),
                column@.len() == ny,
                column@ == transform(column_of(s, nx as nat, ny as nat, ix as int), inv),
                forall|p: int|
                    0 <= p < ny * nx ==> (#[trigger] buf@[p]) == (if p % (nx as int) < ix || (p % (
                    nx as int) == ix && p / (nx as int) < iy) {
                        want[p]
                    } else {
                        s[p]
                    }),
            decreases ny - iy,
        {
            proof {
                lemma_position(iy as int, ix as int, ny as int, nx as int);
            }
            let ghost before = buf@;
            buf.set(iy * nx + ix, column[iy]);
            proof {
                assert forall|p: int| 0 <= p < ny * nx implies (#[trigger] buf@[p]) == (if p % (
                nx as int) < ix || (p % (nx as int) == ix && p / (nx as int) < iy + 1) {
                    want[p]
                } else {
                    s[p]
                }) by {
                    lemma_row_and_column(p, ny as int, nx as int);
                    assert(before[p] == before[p]);
                }
            }
            iy = iy + 1;
        }
        proof {
            assert forall|p: int| 0 <= p < ny * nx implies (#[trigger] buf@[p]) == (if p % (
            nx as int) < ix + 1 {
                want[p]
            } else {
                s[p]
            }) by {
                lemma_row_and_column(p, ny as int, nx as int);
            }
        }
        ix = ix + 1;
    }
    proof {
        assert forall|p: int| 0 <= p < ny * nx implies (#[trigger] buf@[p]) == want[p] by {
            lemma_row_and_column(p, ny as int, nx as int);
        }
        assert(buf@ =~= want);
    }
}

/// The distance of `i` from zero on a circle of `2n` positions.
pub open spec fn distance(i: int, n: int) -> int {
    if i < n {
        i
    } else {
        2 * n - i
    }
}

/// The kernel, mirrored into the four quadrants of a matrix of twice its size: entry
/// `(iy, ix)` is that of the kernel at the distances of `iy` and `ix` from zero. The middle
/// row and the middle column are zero.
pub open spec fn embedded_kernel<T: Real>(kernel: Seq<Cplx<T>>, nx: nat, ny: nat) -> Seq<Cplx<T>> {
    let szx = 2 * nx;
    Seq::new(
        (2 * ny) * szx,
        |p: int|
            {
                let (iy, ix) = (p / szx as int, p % szx as int);
                if iy == ny || ix == nx {
                    Cplx::<T>::nought()
                } else {
                    kernel[distance(iy, ny as int) * nx + distance(ix, nx as int)]
                }
            },
    )
}

/// The vector in the first quadrant of a matrix of twice its size, with zero elsewhere.
pub open spec fn padded<T: Real>(x: Seq<Cplx<T>>, nx: nat, ny: nat) -> Seq<Cplx<T>> {
    let szx = 2 * nx;
    Seq::new(
        (2 * ny) * szx,
        |p: int|
            {
                let (iy, ix) = (p / szx as int, p % szx as int);
                if iy < ny && ix < nx {
                    x[iy * nx + ix]
                } else {
                    Cplx::<T>::nought()
                }
            },
    )
}

/// The products of the entries at the same positions.
pub open spec fn pointwise<T: Real>(a: Seq<Cplx<T>>, b: Seq<Cplx<T>>) -> Seq<Cplx<T>> {
    Seq::new(a.len(), |p: int| a[p].times(b[p]))
}

/// The cyclic convolution of two matrices with `ny` rows and `nx` columns by way of their
/// transforms, before it is scaled.
pub open spec fn convolved<T: Real>(
    a: Seq<Cplx<T>>,
    b: Seq<Cplx<T>>,
    nx: nat,
    ny: nat,
) -> Seq<Cplx<T>> {
    transform2d(
        pointwise(transform2d(a, nx, ny, false), transform2d(b, nx, ny, false)),
        nx,
        ny,
        true,
    )
}

/// The product of `x` with the BTTB matrix of the kernel: the scaled first quadrant of the
/// convolution of the embedded kernel with the padded vector.
pub open spec fn bttb_product<T: Real>(
    kernel: Seq<Cplx<T>>,
    x: Seq<Cplx<T>>,
    nx: nat,
    ny: nat,
) -> Seq<Cplx<T>> {
    let (szx, szy) = (2 * nx, 2 * ny);
    let scale = T::unit().over(T::whole(szy * szx));
    let full = convolved(embedded_kernel(kernel, nx, ny), padded(x, nx, ny), szx, szy);
    Seq::new(
        ny * nx,
        |p: int| full[(p / nx as int) * szx + p % nx as int].stretched(scale),
    )
}

/// Builds the embedded kernel.
fn embed_kernel<T: Real>(kernel: &[Cplx<T>], nx: usize, ny: usize) -> (ke: Vec<Cplx<T>>)
    requires
        kernel@.len() >= ny * nx,
        (2 * ny) * (2 * nx) <= usize::MAX,
    ensures
        ke@ == embedded_kernel(kernel@, nx as nat, ny as nat),
{
    let mut ke: Vec<Cplx<T>> = Vec::new();
    proof {
        lemma_quadrants(nx as int, ny as int);
    }
    if nx == 0 || ny == 0 {
        assert((2 * ny) * (2 * nx) == 0) by (nonlinear_arith)
            requires
                nx == 0 || ny == 0,
        ;
        assert(ke@ =~= embedded_kernel(kernel@, nx as nat, ny as nat));
        return ke;
    }
    let szx = 2 * nx;
    let szy = 2 * ny;
    let ghost want = embedded_kernel(kernel@, nx as nat, ny as nat);
    let mut iy: usize = 0;
    while iy < szy
        invariant
            iy <= szy,
            nx >= 1,
            ny >= 1,
            szx == 2 * nx,
            szy == 2 * ny,
            szy * szx <= usize::MAX,
            kernel@.len() >= ny * nx,
            ny * nx <= usize::MAX,
            want == embedded_kernel(kernel@, nx as nat, ny as nat),
            ke@.len() == iy * szx,
            forall|p: int| 0 <= p < iy * szx ==> ke@[p] == want[p],
        decreases szy - iy,
    {
        assert(iy * szx + szx == (iy + 1) * szx) by (nonlinear_arith);
        assert((iy + 1) * szx <= szy * szx) by (nonlinear_arith)
            requires
                iy + 1 <= szy,
        ;
        let mut ix: usize = 0;
        while ix < szx
            invariant
                iy < szy,
                ix <= szx,
                nx >= 1,
                ny >= 1,
                szx == 2 * nx,
                szy == 2 * ny,
                iy * szx + szx == (iy + 1) * szx,
                (iy + 1) * szx <= szy * szx,
                szy * szx <= usize::MAX,
                kernel@.len() >= ny * nx,
                ny * nx <= usize::MAX,
                want == embedded_kernel(kernel@, nx as nat, ny as nat),
                ke@.len() == iy * szx + ix,
                forall|p: int| 0 <= p < iy * szx + ix ==> ke@[p] == want[p],
            decreases szx - ix,
        {
            proof {
                lemma_position(iy as int, ix as int, szy as int, szx as int);
            }
            if iy == ny || ix == nx {
                ke.push(Cplx::zero());
            } else {
                let dy = if iy < ny {
                    iy
                } else {
                    szy - iy
                };
                let dx = if ix < nx {
                    ix
                } else {
                    szx - ix
                };
                proof {
                    lemma_position(dy as int, dx as int, ny as int, nx as int);
                }
                ke.push(kernel[dy * nx + dx]);
            }
            ix = ix + 1;
        }
        iy = iy + 1;
    }
    assert(ke@ =~= want);
    ke
}

/// Builds the padded vector.
fn pad<T: Real>(x: &[Cplx<T>], nx: usize, ny: usize) -> (xe: Vec<Cplx<T>>)
    requires
        x@.len() >= ny * nx,
        (2 * ny) * (2 * nx) <= usize::MAX,
    ensures
        xe@ == padded(x@, nx as nat, ny as nat),
{
    let mut xe: Vec<Cplx<T>> = Vec::new();
    proof {
        lemma_quadrants(nx as int, ny as int);
    }
    if nx == 0 || ny == 0 {
        assert((2 * ny) * (2 * nx) == 0) by (nonlinear_arith)
            requires
                nx == 0 || ny == 0,
        ;
        assert(xe@ =~= padded(x@, nx as nat, ny as nat));
        return xe;
    }
    let szx = 2 * nx;
    let szy = 2 * ny;
    let ghost want = padded(x@, nx as nat, ny as nat);
    let mut iy: usize = 0;
    while iy < szy
        invariant
            iy <= szy,
            nx >= 1,
            ny >= 1,
            szx == 2 * nx,
            szy == 2 * ny,
            szy * szx <= usize::MAX,
            x@.len() >= ny * nx,
            ny * nx <= usize::MAX,
            want == padded(x@, nx as nat, ny as nat),
            xe@.len() == iy * szx,
            forall|p: int| 0 <= p < iy * szx ==> xe@[p] == want[p],
        decreases szy - iy,
    {
        assert(iy * szx + szx == (iy + 1) * szx) by (nonlinear_arith);
        assert((iy + 1) * szx <= szy * szx) by (nonlinear_arith)
            requires
                iy + 1 <= szy,
        ;
        let mut ix: usize = 0;
        while ix < szx
            invariant
                iy < szy,
                ix <= szx,
                nx >= 1,
                ny >= 1,
                szx == 2 * nx,
                szy == 2 * ny,
                iy * szx + szx == (iy + 1) * szx,
                (iy + 1) * szx <= szy * szx,
                szy * szx <= usize::MAX,
                x@.len() >= ny * nx,
                ny * nx <= usize::MAX,
                want == padded(x@, nx as nat, ny as nat),
                xe@.len() == iy * szx + ix,
                forall|p: int| 0 <= p < iy * szx + ix ==> xe@[p] == want[p],
            decreases szx - ix,
        {
            proof {
                lemma_position(iy as int, ix as int, szy as int, szx as int);
            }
            if iy < ny && ix < nx {
                proof {
                    lemma_position(iy as int, ix as int, ny as int, nx as int);
                }
                xe.push(x[iy * nx + ix]);
            } else {
                xe.push(Cplx::zero());
            }
            ix = ix + 1;
        }
        iy = iy + 1;
    }
    assert(xe@ =~= want);
    xe
}

/// The sizes of the embedding.
proof fn lemma_quadrants(nx: int, ny: int)
    requires
        0 <= nx,
        0 <= ny,
    ensures
        nx >= 1 && ny >= 1 ==> 2 * nx <= (2 * ny) * (2 * nx),
        nx >= 1 && ny >= 1 ==> 2 * ny <= (2 * ny) * (2 * nx),
        ny * nx <= (2 * ny) * (2 * nx),
{
    assert(nx >= 1 && ny >= 1 ==> 2 * nx <= (2 * ny) * (2 * nx)) by (nonlinear_arith);
    assert(nx >= 1 && ny >= 1 ==> 2 * ny <= (2 * ny) * (2 * nx)) by (nonlinear_arith);
    assert(ny * nx <= (2 * ny) * (2 * nx)) by (nonlinear_arith)
        requires
            0 <= nx,
            0 <= ny,
    ;
}

/// The product of `x` with the block Toeplitz matrix with Toeplitz blocks that the kernel
/// defines, via two-dimensional transforms of the four-quadrant embedding of the kernel. Both
/// are given row after row, with `nx` entries in a row and `ny` rows: entry `(jy, jx)` of `x`
/// contributes to entry `(iy, ix)` of the product with the kernel entry
/// `(|iy − jy|, |ix − jx|)`.
pub fn bttb_matvec<T: Real>(kernel: &[Cplx<T>], x: &[Cplx<T>], nx: usize, ny: usize) -> (y: Vec<
    Cplx<T>,
>)
    requires
        kernel@.len() >= ny * nx,
        x@.len() >= ny * nx,
        (2 * ny) * (2 * nx) <= usize::MAX,
        nx == 0 || ny == 0 || (is_power_of_two(nx as nat) && is_power_of_two(ny as nat)),
    ensures
        y@ == bttb_product(kernel@, x@, nx as nat, ny as nat),
{
    proof {
        lemma_quadrants(nx as int, ny as int);
    }
    let mut y: Vec<Cplx<T>> = Vec::new();
    if nx == 0 || ny == 0 {
        assert(ny * nx == 0) by (nonlinear_arith)
            requires
                nx == 0 || ny == 0,
        ;
        assert(y@ =~= bttb_product(kernel@, x@, nx as nat, ny as nat));
        return y;
    }
    let szx = 2 * nx;
    let szy = 2 * ny;
    let sz = szy * szx;
    let mut ke = embed_kernel(kernel, nx, ny);
    let mut xe = pad(x, nx, ny);
    fft2d(&mut ke, szx, szy, false);
    fft2d(&mut xe, szx, szy, false);
    let ghost (a, b) = (ke@, xe@);
    let mut i: usize = 0;
    while i < sz
        invariant
            i <= sz,
            ke@ == a,
            a.len() == sz,
            b.len() == sz,
            xe@.len() == sz,
            forall|p: int| 0 <= p < i ==> xe@[p] == pointwise(a, b)[p],
            forall|p: int| i <= p < sz ==> xe@[p] == b[p],
        decreases sz - i,
    {
        let product = ke[i].mul(xe[i]);
        xe.set(i, product);
        i = i + 1;
    }
    assert(xe@ =~= pointwise(a, b));
    fft2d(&mut xe, szx, szy, true);
    let scale = T::one().div(T::from_usize(sz));
    let ghost want = bttb_product(kernel@, x@, nx as nat, ny as nat);
    let mut iy: usize = 0;
    while iy < ny
        invariant
            iy <= ny,
            nx >= 1,
            szx == 2 * nx,
            szy == 2 * ny,
            sz == szy * szx,
            xe@.len() == sz,
            xe@ == convolved(
                embedded_kernel(kernel@, nx as nat, ny as nat),
                padded(x@, nx as nat, ny as nat),
                szx as nat,
                szy as nat,
            ),
            scale == T::unit().over(T::whole(sz as nat)),
            want == bttb_product(kernel@, x@, nx as nat, ny as nat),
            y@.len() == iy * nx,
            forall|p: int| 0 <= p < iy * nx ==> y@[p] == want[p],
        decreases ny - iy,
    {
        assert(iy * nx + nx == (iy + 1) * nx) by (nonlinear_arith);
        assert((iy + 1) * nx <= ny * nx) by (nonlinear_arith)
            requires
                iy + 1 <= ny,
        ;
        let mut ix: usize = 0;
        while ix < nx
            invariant
                iy < ny,
                ix <= nx,
                szx == 2 * nx,
                szy == 2 * ny,
                sz == szy * szx,
                iy * nx + nx == (iy + 1) * nx,
                (iy + 1) * nx <= ny * nx,
                xe@.len() == sz,
                xe@ == convolved(
                    embedded_kernel(kernel@, nx as nat, ny as nat),
                    padded(x@, nx as nat, ny as nat),
                    szx as nat,
                    szy as nat,
                ),
                scale == T::unit().over(T::whole(sz as nat)),
                want == bttb_product(kernel@, x@, nx as nat, ny as nat),
                y@.len() == iy * nx + ix,
                forall|p: int| 0 <= p < iy * nx + ix ==> y@[p] == want[p],
            decreases nx - ix,
        {
            proof {
                lemma_position(iy as int, ix as int, szy as int, szx as int);
                lemma_position(iy as int, ix as int, ny as int, nx as int);
            }
            y.push(xe[iy * szx + ix].scale(scale));
            ix = ix + 1;
        }
        iy = iy + 1;
    }
    assert(y@ =~= want);
    y
}

} // verus!
