//! The orthonormal vectors that the rotations of GMRES turn its basis into.
//!
//! Rotation `j` turns the pair of the leading vector and basis vector `j + 1` into an axis, which
//! stays, and the next leading vector.
use super::complex_lgmres::rotated;
use super::unitary::{
    blend, lemma_axis, lemma_conjugate, lemma_inner, lemma_negative_nought, lemma_turn,
};
use crate::complex::Cplx;
use crate::exact::{
    is_ring, lemma_ring, lemma_times_negative, lemma_times_nought, lemma_total_pair,
    lemma_total_same, total,
};
use crate::fourier::lemma_complex_ring;
use crate::scalar::{Field, Real, Scalar};
use crate::vector::{inner_product, zero_vector};
use vstd::prelude::*;

verus! {

/// The leading vector after `j` rotations.
pub open spec fn lead<T: Real>(
    v: Seq<Seq<Cplx<T>>>,
    cs: Seq<T>,
    sn: Seq<Cplx<T>>,
    j: nat,
) -> Seq<Cplx<T>>
    decreases j,
{
    if j == 0 {
        v[0]
    } else {
        blend(
            sn[j - 1].negated(),
            lead(v, cs, sn, (j - 1) as nat),
            Cplx::on_axis(cs[j - 1]),
            v[j as int],
        )
    }
}

/// The axis that rotation `i` leaves behind.
pub open spec fn axis<T: Real>(
    v: Seq<Seq<Cplx<T>>>,
    cs: Seq<T>,
    sn: Seq<Cplx<T>>,
    i: int,
) -> Seq<Cplx<T>> {
    blend(Cplx::on_axis(cs[i]), lead(v, cs, sn, i as nat), sn[i].conjugate(), v[i + 1])
}

/// The axes of the first `p` rotations, with the leading vector behind them.
pub open spec fn frame<T: Real>(
    v: Seq<Seq<Cplx<T>>>,
    cs: Seq<T>,
    sn: Seq<Cplx<T>>,
    p: nat,
) -> Seq<Seq<Cplx<T>>> {
    Seq::new(
        p + 1,
        |i: int|
            if i < p {
                axis(v, cs, sn, i)
            } else {
                lead(v, cs, sn, p)
            },
    )
}

/// The first `count` vectors have `n` entries each.
pub open spec fn of_length<T>(v: Seq<Seq<T>>, n: nat, count: nat) -> bool {
    forall|i: int| 0 <= i < count ==> (#[trigger] v[i]).len() == n
}

/// The first `count` vectors are orthonormal.
pub open spec fn orthonormal<T: Real>(v: Seq<Seq<Cplx<T>>>, count: nat) -> bool {
    forall|i: int, j: int|
        0 <= i < count && 0 <= j < count ==> #[trigger] inner_product(v[i], v[j]) == (if i == j {
            Cplx::<T>::unit()
        } else {
            Cplx::<T>::nought()
        })
}

/// The vectors are orthogonal to each other.
pub open spec fn orthogonal<T: Real>(f: Seq<Seq<Cplx<T>>>) -> bool {
    forall|i: int, j: int|
        0 <= i < j < f.len() ==> #[trigger] inner_product(f[i], f[j]) == Cplx::<T>::nought()
}

/// The first `count` vectors have norm one.
pub open spec fn of_norm_one<T: Real>(f: Seq<Seq<Cplx<T>>>, count: nat) -> bool {
    forall|i: int|
        0 <= i < count ==> inner_product(#[trigger] f[i], f[i]) == Cplx::<T>::unit()
}

/// Rotation `i` is one.
pub open spec fn is_rotation<T: Real>(cs: Seq<T>, sn: Seq<Cplx<T>>, i: int) -> bool {
    Cplx::on_axis(cs[i]).times(Cplx::on_axis(cs[i])).plus(sn[i].conjugate().times(sn[i]))
        == Cplx::<T>::unit()
}

/// The first `p` rotations are such.
pub open spec fn are_rotations<T: Real>(cs: Seq<T>, sn: Seq<Cplx<T>>, p: nat) -> bool {
    forall|i: int| 0 <= i < p ==> #[trigger] is_rotation(cs, sn, i)
}

/// The leading vector has the length of the basis vectors.
pub proof fn lemma_lead_length<T: Real>(
    v: Seq<Seq<Cplx<T>>>,
    cs: Seq<T>,
    sn: Seq<Cplx<T>>,
    n: nat,
    j: nat,
)
    requires
        of_length(v, n, j + 1),
    ensures
        lead(v, cs, sn, j).len() == n,
    decreases j,
{
    assert(v[0].len() == n);
    if j > 0 {
        lemma_lead_length(v, cs, sn, n, (j - 1) as nat);
    }
}

/// The leading vector depends on the rotations before it and on the basis vectors up to it.
pub proof fn lemma_lead_same<T: Real>(
    v: Seq<Seq<Cplx<T>>>,
    cs: Seq<T>,
    sn: Seq<Cplx<T>>,
    v2: Seq<Seq<Cplx<T>>>,
    cs2: Seq<T>,
    sn2: Seq<Cplx<T>>,
    j: nat,
)
    requires
        forall|i: int| 0 <= i <= j ==> #[trigger] v[i] == v2[i],
        forall|i: int| 0 <= i < j ==> #[trigger] cs[i] == cs2[i],
        forall|i: int| 0 <= i < j ==> #[trigger] sn[i] == sn2[i],
    ensures
        lead(v, cs, sn, j) == lead(v2, cs2, sn2, j),
    decreases j,
{
    if j > 0 {
        lemma_lead_same(v, cs, sn, v2, cs2, sn2, (j - 1) as nat);
        assert(v[j as int] == v2[j as int]);
        assert(cs[j - 1] == cs2[j - 1]);
        assert(sn[j - 1] == sn2[j - 1]);
    } else {
        assert(v[0] == v2[0]);
    }
}

/// The leading vector is orthogonal to the basis vectors after it, and has norm one.
proof fn lemma_lead<T: Real>(
    v: Seq<Seq<Cplx<T>>>,
    cs: Seq<T>,
    sn: Seq<Cplx<T>>,
    n: nat,
    count: nat,
    j: nat,
)
    requires
        is_ring::<T>(),
        of_length(v, n, count),
        orthonormal(v, count),
        are_rotations(cs, sn, j),
        j < count,
    ensures
        forall|m: int|
            j < m < count ==> #[trigger] inner_product(lead(v, cs, sn, j), v[m]) == Cplx::<
                T,
            >::nought(),
        inner_product(lead(v, cs, sn, j), lead(v, cs, sn, j)) == Cplx::<T>::unit(),
    decreases j,
{
    lemma_complex_ring::<T>();
    let (zero, one) = (Cplx::<T>::nought(), Cplx::<T>::unit());
    let now = lead(v, cs, sn, j);
    if j == 0 {
        assert(inner_product(v[0], v[0]) == one);
    } else {
        let i = (j - 1) as nat;
        lemma_lead(v, cs, sn, n, count, i);
        lemma_lead_length(v, cs, sn, n, i);
        let l = lead(v, cs, sn, i);
        let u = v[j as int];
        let (c, s) = (Cplx::on_axis(cs[j - 1]), sn[j - 1]);
        let x = s.negated();
        assert(is_rotation(cs, sn, j - 1));
        assert(u.len() == n);
        lemma_times_nought(x.conjugate());
        lemma_times_nought(c.conjugate());
        lemma_ring(zero, zero, zero);
        assert forall|m: int| j < m < count implies #[trigger] inner_product(now, v[m])
            == zero by {
            assert(v[m].len() == n);
            lemma_inner(v[m], x, l, c, u);
            assert(inner_product(u, v[m]) == zero);
            assert(inner_product(l, v[m]) == zero);
        }
        // ⟨now, now⟩ = |s|²·⟨l, l⟩ + c²·⟨u, u⟩
        let lu = inner_product(l, u);
        assert(lu == zero);
        assert(inner_product(u, u) == one);
        lemma_inner(u, x, l, c, u);
        lemma_inner(l, x, l, c, u);
        lemma_conjugate(lu, lu);
        lemma_inner(now, x, l, c, u);
        lemma_lead_length(v, cs, sn, n, j);
        lemma_axis(cs[j - 1], cs[j - 1]);
        lemma_conjugate(s, s);
        let (nl, nu) = (inner_product(l, now), inner_product(u, now));
        // ⟨l, now⟩ = −s, ⟨u, now⟩ = c
        lemma_times_nought(x);
        lemma_times_nought(c);
        lemma_ring(x, one, one);
        lemma_ring(c, one, one);
        lemma_ring(x, zero, zero);
        lemma_ring(c, zero, zero);
        assert(nl == x);
        assert(nu == c);
        // ⟨now, now⟩ = conj(−s)·⟨l, now⟩ + conj(c)·⟨u, now⟩
        let sc = s.conjugate();
        lemma_times_negative(sc, s.negated());
        lemma_times_negative(sc, s);
        lemma_times_negative(sc.times(s), s);
        lemma_ring(sc.times(s), c.times(c), one);
        assert(inner_product(now, now) == x.conjugate().times(nl).plus(c.conjugate().times(nu)));
    }
}

/// An axis is orthogonal to the basis vectors behind those it is made of, and to every later
/// leading vector.
proof fn lemma_axis_lead<T: Real>(
    v: Seq<Seq<Cplx<T>>>,
    cs: Seq<T>,
    sn: Seq<Cplx<T>>,
    n: nat,
    count: nat,
    i: nat,
    p: nat,
)
    requires
        is_ring::<T>(),
        of_length(v, n, count),
        orthonormal(v, count),
        are_rotations(cs, sn, p),
        i < p < count,
    ensures
        axis(v, cs, sn, i as int).len() == n,
        forall|m: int|
            i + 1 < m < count ==> #[trigger] inner_product(axis(v, cs, sn, i as int), v[m])
                == Cplx::<T>::nought(),
        inner_product(axis(v, cs, sn, i as int), lead(v, cs, sn, p)) == Cplx::<T>::nought(),
    decreases p,
{
    lemma_complex_ring::<T>();
    let zero = Cplx::<T>::nought();
    let one = Cplx::<T>::unit();
    let a = axis(v, cs, sn, i as int);
    let l = lead(v, cs, sn, i);
    let u = v[(i + 1) as int];
    let (c, s) = (Cplx::on_axis(cs[i as int]), sn[i as int]);
    let sc = s.conjugate();
    lemma_lead(v, cs, sn, n, count, i);
    lemma_lead_length(v, cs, sn, n, i);
    lemma_conjugate(s, s);
    lemma_axis(cs[i as int], cs[i as int]);
    assert(u.len() == n);
    lemma_times_nought(c);
    lemma_times_nought(s);
    lemma_times_nought(s.negated());
    lemma_ring(zero, zero, zero);
    assert forall|m: int| i + 1 < m < count implies #[trigger] inner_product(a, v[m]) == zero by {
        assert(v[m].len() == n);
        lemma_inner(v[m], c, l, sc, u);
        assert(inner_product(l, v[m]) == zero);
        assert(inner_product(u, v[m]) == zero);
    }
    if p == i + 1 {
        let next = lead(v, cs, sn, p);
        lemma_lead_length(v, cs, sn, n, p);
        let x = s.negated();
        let lu = inner_product(l, u);
        assert(lu == zero);
        assert(inner_product(u, u) == one);
        lemma_inner(l, x, l, c, u);
        lemma_inner(u, x, l, c, u);
        lemma_conjugate(lu, lu);
        lemma_ring(x, one, one);
        lemma_ring(c, one, one);
        lemma_ring(x, zero, zero);
        lemma_ring(c, zero, zero);
        assert(inner_product(l, next) == x);
        assert(inner_product(u, next) == c);
        // c·(−s) + s·c = 0
        lemma_inner(next, c, l, sc, u);
        lemma_times_negative(c, s);
        lemma_ring(s, c, one);
        let cs2 = c.times(s);
        lemma_ring(cs2, cs2, one);
        lemma_ring(cs2, cs2.negated(), one);
    } else {
        let before = (p - 1) as nat;
        lemma_axis_lead(v, cs, sn, n, count, i, before);
        let (t, w) = (lead(v, cs, sn, before), v[p as int]);
        lemma_lead_length(v, cs, sn, n, before);
        assert(w.len() == n);
        let (x, y) = (sn[p - 1].negated(), Cplx::on_axis(cs[p - 1]));
        lemma_inner(a, x, t, y, w);
        assert(inner_product(a, w) == zero);
        lemma_times_nought(x);
        lemma_times_nought(y);
    }
}

/// An axis has norm one.
proof fn lemma_axis_unit<T: Real>(
    v: Seq<Seq<Cplx<T>>>,
    cs: Seq<T>,
    sn: Seq<Cplx<T>>,
    n: nat,
    count: nat,
    i: nat,
)
    requires
        is_ring::<T>(),
        of_length(v, n, count),
        orthonormal(v, count),
        are_rotations(cs, sn, i + 1),
        i + 1 < count,
    ensures
        inner_product(axis(v, cs, sn, i as int), axis(v, cs, sn, i as int)) == Cplx::<T>::unit(),
{
    lemma_complex_ring::<T>();
    let (zero, one) = (Cplx::<T>::nought(), Cplx::<T>::unit());
    let a = axis(v, cs, sn, i as int);
    let l = lead(v, cs, sn, i);
    let u = v[(i + 1) as int];
    let (c, s) = (Cplx::on_axis(cs[i as int]), sn[i as int]);
    let sc = s.conjugate();
    lemma_lead(v, cs, sn, n, count, i);
    lemma_lead_length(v, cs, sn, n, i);
    lemma_conjugate(s, s);
    lemma_axis(cs[i as int], cs[i as int]);
    assert(is_rotation(cs, sn, i as int));
    assert(u.len() == n);
    assert(inner_product(l, u) == zero);
    assert(inner_product(u, u) == one);
    lemma_inner(l, c, l, sc, u);
    lemma_inner(u, c, l, sc, u);
    lemma_conjugate(zero, zero);
    lemma_times_nought(c);
    lemma_times_nought(sc);
    lemma_ring(c, one, one);
    lemma_ring(sc, one, one);
    lemma_ring(c, zero, zero);
    lemma_ring(sc, zero, zero);
    assert(inner_product(l, a) == c);
    assert(inner_product(u, a) == sc);
    lemma_inner(a, c, l, sc, u);
    lemma_ring(s, sc, one);
}

/// Where the basis is orthonormal, so is the frame that the rotations turn it into.
pub proof fn lemma_frame<T: Real>(
    v: Seq<Seq<Cplx<T>>>,
    cs: Seq<T>,
    sn: Seq<Cplx<T>>,
    n: nat,
    p: nat,
)
    requires
        is_ring::<T>(),
        of_length(v, n, p + 1),
        orthonormal(v, p + 1),
        are_rotations(cs, sn, p),
    ensures
        of_length(frame(v, cs, sn, p), n, p + 1),
        orthogonal(frame(v, cs, sn, p)),
        of_norm_one(frame(v, cs, sn, p), p + 1),
        inner_product(lead(v, cs, sn, p), lead(v, cs, sn, p)) == Cplx::<T>::unit(),
{
    lemma_complex_ring::<T>();
    let zero = Cplx::<T>::nought();
    let f = frame(v, cs, sn, p);
    lemma_lead(v, cs, sn, n, p + 1, p);
    lemma_lead_length(v, cs, sn, n, p);
    assert forall|i: int| 0 <= i < p + 1 implies (#[trigger] f[i]).len() == n by {
        if i < p {
            lemma_lead_length(v, cs, sn, n, i as nat);
        }
    }
    assert forall|i: int| 0 <= i < p + 1 implies inner_product(#[trigger] f[i], f[i]) == Cplx::<
        T,
    >::unit() by {
        if i < p {
            lemma_axis_unit(v, cs, sn, n, p + 1, i as nat);
        }
    }
    assert forall|i: int, j: int| 0 <= i < j < f.len() implies #[trigger] inner_product(f[i], f[j])
        == zero by {
        lemma_axis_lead(v, cs, sn, n, p + 1, i as nat, j as nat);
        if j < p {
            lemma_lead_length(v, cs, sn, n, j as nat);
            assert(v[j + 1].len() == n);
            let (x, y) = (Cplx::on_axis(cs[j]), sn[j].conjugate());
            lemma_inner(f[i], x, lead(v, cs, sn, j as nat), y, v[j + 1]);
            assert(inner_product(f[i], v[j + 1]) == zero);
            lemma_times_nought(x);
            lemma_times_nought(y);
            lemma_ring(zero, zero, zero);
        }
    }
}

/// A basis that cannot grow: with the zero vector behind it and a rotation that changes nothing,
/// the last axis is the leading vector, and the next leading vector is zero.
pub proof fn lemma_frame_stalled<T: Real>(
    v: Seq<Seq<Cplx<T>>>,
    cs: Seq<T>,
    sn: Seq<Cplx<T>>,
    n: nat,
    p: nat,
)
    requires
        is_ring::<T>(),
        of_length(v, n, p + 1),
        orthonormal(v, p + 1),
        are_rotations(cs, sn, p),
        v[(p + 1) as int] == zero_vector::<Cplx<T>>(n),
        cs[p as int] == T::unit(),
        sn[p as int] == Cplx::<T>::nought(),
    ensures
        of_length(frame(v, cs, sn, p + 1), n, p + 2),
        orthogonal(frame(v, cs, sn, p + 1)),
        of_norm_one(frame(v, cs, sn, p + 1), p + 1),
{
    lemma_complex_ring::<T>();
    let (zero, one) = (Cplx::<T>::nought(), Cplx::<T>::unit());
    let (f, g) = (frame(v, cs, sn, p), frame(v, cs, sn, p + 1));
    lemma_frame(v, cs, sn, n, p);
    lemma_lead_length(v, cs, sn, n, p);
    let l = lead(v, cs, sn, p);
    lemma_conjugate(zero, zero);
    lemma_negative_nought::<Cplx<T>>();
    lemma_times_nought(zero);
    lemma_times_nought(one);
    lemma_ring(zero, zero, zero);
    assert forall|at: int| 0 <= at < n implies axis(v, cs, sn, p as int)[at] == l[at] by {
        lemma_ring(l[at], one, one);
        lemma_ring(l[at], zero, one);
    }
    assert(axis(v, cs, sn, p as int) =~= l);
    let last = lead(v, cs, sn, p + 1);
    assert forall|at: int| 0 <= at < n implies last[at] == zero by {
        lemma_times_nought(l[at]);
    }
    assert forall|i: int| 0 <= i < p + 2 implies (#[trigger] g[i]).len() == n by {
        if i <= p {
            assert(g[i] =~= f[i]);
            assert(f[i].len() == n);
        }
    }
    assert forall|i: int| 0 <= i < p + 1 implies inner_product(#[trigger] g[i], g[i]) == one by {
        assert(g[i] =~= f[i]);
        assert(inner_product(f[i], f[i]) == one);
    }
    assert forall|i: int, j: int| 0 <= i < j < g.len() implies #[trigger] inner_product(g[i], g[j])
        == zero by {
        assert(g[i] =~= f[i]);
        if j <= p {
            assert(g[j] =~= f[j]);
            assert(inner_product(f[i], f[j]) == zero);
        } else {
            assert(f[i].len() == n);
            lemma_inner(f[i], zero, f[i], zero, f[i]);
            lemma_times_nought(inner_product(f[i], f[i]));
            let none = blend(zero, f[i], zero, f[i]);
            assert forall|at: int| 0 <= at < n implies none[at] == last[at] by {
                lemma_times_nought(f[i][at]);
            }
            assert(none =~= g[j]);
        }
    }
}

/// What the first `m` rotations have turned vector `i` of the basis into.
pub open spec fn turned<T: Real>(
    v: Seq<Seq<Cplx<T>>>,
    cs: Seq<T>,
    sn: Seq<Cplx<T>>,
    m: nat,
    i: int,
) -> Seq<Cplx<T>> {
    if i < m {
        axis(v, cs, sn, i)
    } else if i == m {
        lead(v, cs, sn, m)
    } else {
        v[i]
    }
}

/// Rotating the coordinates of a vector and the basis along with them does not change the vector.
pub proof fn lemma_rotated_total<T: Scalar>(
    column: Seq<Cplx<T>>,
    v: Seq<Seq<Cplx<T>>>,
    cs: Seq<T>,
    sn: Seq<Cplx<T>>,
    n: nat,
    m: nat,
    at: int,
)
    requires
        is_ring::<T>(),
        m < column.len(),
        of_length(v, n, column.len()),
        are_rotations(cs, sn, m),
        0 <= at < n,
    ensures
        rotated(column, cs, sn, m).len() == column.len(),
        total(column.len(), |i: int| column[i].times(v[i][at])) == total(
            column.len(),
            |i: int| rotated(column, cs, sn, m)[i].times(turned(v, cs, sn, m, i)[at]),
        ),
    decreases m,
{
    lemma_complex_ring::<T>();
    let count = column.len();
    if m == 0 {
        let (plain, after) = (
            |i: int| column[i].times(v[i][at]),
            |i: int| rotated(column, cs, sn, m)[i].times(turned(v, cs, sn, m, i)[at]),
        );
        lemma_total_same(count, plain, after);
    } else {
        let less = (m - 1) as nat;
        lemma_rotated_total(column, v, cs, sn, n, less, at);
        let (before, now) = (rotated(column, cs, sn, less), rotated(column, cs, sn, m));
        let f = |i: int| before[i].times(turned(v, cs, sn, less, i)[at]);
        let g = |i: int| now[i].times(turned(v, cs, sn, m, i)[at]);
        let (c, s) = (Cplx::on_axis(cs[m - 1]), sn[m - 1]);
        assert(is_rotation(cs, sn, m - 1));
        lemma_lead_length(v, cs, sn, n, less);
        assert(v[m as int].len() == n);
        let (a, b) = (before[m - 1], before[m as int]);
        let (l, u) = (lead(v, cs, sn, less)[at], v[m as int][at]);
        lemma_turn(c, s, a, b, l, u);
        assert(g(m - 1) == c.times(a).plus(s.times(b)).times(
            c.times(l).plus(s.conjugate().times(u)),
        ));
        assert(g(m as int) == s.conjugate().negated().times(a).plus(c.times(b)).times(
            s.negated().times(l).plus(c.times(u)),
        ));
        assert(f(m - 1) == a.times(l));
        assert(f(m as int) == b.times(u));
        lemma_total_pair(count, f, g, m - 1);
    }
}

/// Only the first `m + 1` entries of a column are touched by `m` rotations, and they depend on no
/// others.
pub proof fn lemma_rotated_same<T: Scalar>(
    column: Seq<Cplx<T>>,
    cs: Seq<T>,
    sn: Seq<Cplx<T>>,
    other: Seq<Cplx<T>>,
    cs2: Seq<T>,
    sn2: Seq<Cplx<T>>,
    m: nat,
)
    requires
        m < column.len(),
        m < other.len(),
        forall|i: int| 0 <= i <= m ==> #[trigger] column[i] == other[i],
        forall|i: int| 0 <= i < m ==> #[trigger] cs[i] == cs2[i],
        forall|i: int| 0 <= i < m ==> #[trigger] sn[i] == sn2[i],
    ensures
        rotated(column, cs, sn, m).len() == column.len(),
        forall|i: int|
            0 <= i <= m ==> #[trigger] rotated(column, cs, sn, m)[i] == rotated(
                other,
                cs2,
                sn2,
                m,
            )[i],
        forall|i: int|
            m < i < column.len() ==> #[trigger] rotated(column, cs, sn, m)[i] == column[i],
    decreases m,
{
    if m > 0 {
        let less = (m - 1) as nat;
        lemma_rotated_same(column, cs, sn, other, cs2, sn2, less);
        lemma_rotated_same(other, cs2, sn2, column, cs, sn, less);
        assert(cs[m - 1] == cs2[m - 1]);
        assert(sn[m - 1] == sn2[m - 1]);
        assert(column[m as int] == other[m as int]);
        assert(rotated(column, cs, sn, less)[m as int] == column[m as int]);
        assert(rotated(other, cs2, sn2, less)[m as int] == other[m as int]);
        assert(rotated(column, cs, sn, less)[m - 1] == rotated(other, cs2, sn2, less)[m - 1]);
    }
}

} // verus!
