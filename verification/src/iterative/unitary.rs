//! Complex numbers, rotations and inner products in exact arithmetic.
use super::complex_gmres::rotation;
use crate::complex::Cplx;
use crate::exact::{
    is_ring, lemma_negative, lemma_negative_sum, lemma_plus_plus, lemma_ring,
    lemma_times_negative, lemma_times_nought,
};
use crate::fourier::lemma_complex_ring;
use crate::scalar::{Field, Real};
use crate::vector::{
    complex_euclidean, dot_product, dot_sum, euclidean, inner_product, inner_sum, multiplied,
    square_sum,
};
use vstd::prelude::*;

verus! {

/// What holds of two real numbers besides the laws of a ring: division undoes multiplication,
/// squares are not negative, roots and hypotenuses are what they are called, and only positive
/// numbers exceed the resolution.
pub open spec fn real_laws<T: Real>(a: T, b: T) -> bool {
    let zero = T::nought();
    &&& b != zero ==> a.over(b).times(b) == a
    &&& zero.at_most(a.times(a))
    &&& zero.at_most(a) && zero.at_most(b) ==> zero.at_most(a.plus(b))
    &&& zero.at_most(a) && zero.at_most(b) && a.plus(b) == zero ==> a == zero && b == zero
    &&& zero.at_most(a) ==> (zero.less(a) <==> a != zero)
    &&& zero.at_most(a) ==> zero.at_most(a.root()) && a.root().times(a.root()) == a
    &&& zero.at_most(a.hypotenuse(b))
    &&& a.hypotenuse(b).times(a.hypotenuse(b)) == a.times(a).plus(b.times(b))
    &&& zero.less(a) <==> T::resolution().less(a)
    &&& zero.at_most(a) && zero.at_most(b) ==> a.root().at_most(a.plus(b).root())
}

/// The order of three numbers.
pub open spec fn order_laws<T: Real>(a: T, b: T, c: T) -> bool {
    &&& a.at_most(a)
    &&& a.at_most(b) && b.at_most(c) ==> a.at_most(c)
}

/// The numbers are the real numbers, as far as the laws of this crate ask: nothing is rounded, and
/// every positive number exceeds the resolution.
pub open spec fn is_real_field<T: Real>() -> bool {
    &&& is_ring::<T>()
    &&& forall|a: T, b: T| #[trigger] real_laws(a, b)
    &&& forall|a: T, b: T, c: T| #[trigger] order_laws(a, b, c)
}

/// A number whose square is zero is zero.
proof fn lemma_square_nought<T: Real>(a: T)
    requires
        is_real_field::<T>(),
        a.times(a) == T::nought(),
    ensures
        a == T::nought(),
{
    if a != T::nought() {
        let q = T::unit().over(a);
        assert(real_laws(T::unit(), a));
        // a = (q·a)·a = q·(a·a)
        lemma_ring(a, a, a);
        lemma_ring(q, a, a);
        lemma_times_nought(q);
    }
}

/// The square of an absolute value is not negative, and zero only for zero.
pub proof fn lemma_square_norm_positive<T: Real>(z: Cplx<T>)
    requires
        is_real_field::<T>(),
    ensures
        T::nought().at_most(z.square_norm()),
        z.square_norm() == T::nought() <==> z == Cplx::<T>::nought(),
{
    let zero = T::nought();
    assert(real_laws(z.re, z.re));
    assert(real_laws(z.im, z.im));
    assert(real_laws(z.re.times(z.re), z.im.times(z.im)));
    if z.square_norm() == zero {
        lemma_square_nought(z.re);
        lemma_square_nought(z.im);
    }
    lemma_times_nought(zero);
    lemma_ring(zero, zero, zero);
}

/// The length of a number squares to the square of its length, and is positive unless the number
/// is zero.
pub proof fn lemma_length<T: Real>(z: Cplx<T>)
    requires
        is_real_field::<T>(),
    ensures
        z.length().times(z.length()) == z.square_norm(),
        T::nought().at_most(z.length()),
        T::nought().less(z.length()) <==> z != Cplx::<T>::nought(),
        z.length() == T::nought() <==> z == Cplx::<T>::nought(),
        T::resolution().less(z.length()) <==> z != Cplx::<T>::nought(),
{
    assert(real_laws(z.re, z.im));
    assert(real_laws(z.length(), z.length()));
    lemma_square_norm_positive(z);
    lemma_times_nought(T::nought());
    if z.length().times(z.length()) == T::nought() {
        lemma_square_nought(z.length());
    }
}

/// Zero is its own negative.
pub proof fn lemma_negative_nought<E: Field>()
    requires
        is_ring::<E>(),
    ensures
        E::nought().negated() == E::nought(),
{
    lemma_ring(E::nought(), E::nought(), E::nought());
    lemma_negative(E::nought(), E::nought());
}

/// Conjugates of sums, products and of conjugates.
pub proof fn lemma_conjugate<T: Real>(a: Cplx<T>, b: Cplx<T>)
    requires
        is_ring::<T>(),
    ensures
        a.plus(b).conjugate() == a.conjugate().plus(b.conjugate()),
        a.times(b).conjugate() == a.conjugate().times(b.conjugate()),
        a.negated().conjugate() == a.conjugate().negated(),
        a.conjugate().conjugate() == a,
        Cplx::<T>::nought().conjugate() == Cplx::<T>::nought(),
{
    lemma_negative_sum(a.im, b.im);
    lemma_times_negative(a.im, b.im.negated());
    lemma_times_negative(a.im, b.im);
    lemma_times_negative(a.re, b.im);
    lemma_times_negative(a.im, b.re);
    lemma_negative_sum(a.re.times(b.im), a.im.times(b.re));
    lemma_times_negative(a.im, a.im);
    lemma_times_negative(a.im.times(b.im), a.im);
    lemma_negative_nought::<T>();
}

/// A number times its conjugate is the square of its length.
pub proof fn lemma_square_norm<T: Real>(f: Cplx<T>)
    requires
        is_ring::<T>(),
    ensures
        f.conjugate().times(f) == Cplx::on_axis(f.square_norm()),
{
    lemma_times_negative(f.im, f.im);
    lemma_times_negative(f.re.times(f.re), f.im.times(f.im));
    lemma_times_negative(f.im, f.re);
    lemma_ring(f.re, f.im, f.re);
    lemma_ring(f.re.times(f.im), f.re, f.re);
}

/// Real numbers are their own conjugates, and add up and multiply as complex ones.
pub proof fn lemma_axis<T: Real>(a: T, b: T)
    requires
        is_ring::<T>(),
    ensures
        Cplx::on_axis(a).conjugate() == Cplx::on_axis(a),
        Cplx::on_axis(a).plus(Cplx::on_axis(b)) == Cplx::on_axis(a.plus(b)),
        Cplx::on_axis(a).times(Cplx::on_axis(b)) == Cplx::on_axis(a.times(b)),
{
    let zero = T::nought();
    lemma_negative_nought::<T>();
    lemma_times_nought(a);
    lemma_times_nought(b);
    lemma_times_nought(zero);
    lemma_ring(zero, zero, zero);
    lemma_ring(a.times(b), zero, zero);
}

/// `(a·b)·(c·d) = (a·c)·(b·d)`.
pub proof fn lemma_regroup<E: Field>(a: E, b: E, c: E, d: E)
    requires
        is_ring::<E>(),
    ensures
        a.times(b).times(c.times(d)) == a.times(c).times(b.times(d)),
{
    lemma_ring(a, b, c.times(d));
    lemma_ring(b, c, d);
    lemma_ring(c, b, d);
    lemma_ring(a, c, b.times(d));
}

/// A real factor other than zero can be cancelled.
pub proof fn lemma_cancel_factor<T: Real>(x: Cplx<T>, y: Cplx<T>, d: T)
    requires
        is_real_field::<T>(),
        d != T::nought(),
        x.times(Cplx::on_axis(d)) == y.times(Cplx::on_axis(d)),
    ensures
        x == y,
{
    lemma_complex_ring::<T>();
    let q = T::unit().over(d);
    let (cd, cq) = (Cplx::on_axis(d), Cplx::on_axis(q));
    assert(real_laws(T::unit(), d));
    lemma_axis(d, q);
    lemma_ring(d, q, q);
    assert(cd.times(cq) == Cplx::<T>::unit());
    lemma_ring(x, cd, cq);
    lemma_ring(y, cd, cq);
    lemma_ring(x, x, x);
    lemma_ring(y, y, y);
}

/// Dividing by a complex number other than zero and multiplying by it gives the number back.
pub proof fn lemma_quotient<T: Real>(z: Cplx<T>, q: Cplx<T>)
    requires
        is_real_field::<T>(),
        q != Cplx::<T>::nought(),
    ensures
        z.over(q).times(q) == z,
{
    lemma_complex_ring::<T>();
    let square = q.square_norm();
    let cs = Cplx::on_axis(square);
    lemma_square_norm_positive(q);
    let (re, im) = (
        z.re.times(q.re).plus(z.im.times(q.im)),
        z.im.times(q.re).minus(z.re.times(q.im)),
    );
    assert(real_laws(re, square));
    assert(real_laws(im, square));
    // (z/q)·|q|² = z·q̄
    let zero = T::nought();
    lemma_times_nought(re.over(square));
    lemma_times_nought(im.over(square));
    lemma_negative_nought::<T>();
    lemma_ring(re, zero, zero);
    lemma_ring(im, zero, zero);
    assert(z.over(q).times(cs) == (Cplx { re, im }));
    lemma_times_negative(z.im, q.im);
    lemma_times_negative(z.re, q.im);
    lemma_times_negative(z.re.times(q.re), z.im.times(q.im));
    lemma_ring(z.re.times(q.im).negated(), z.im.times(q.re), zero);
    lemma_ring(z.im.times(q.re), z.re.times(q.im), zero);
    assert(z.times(q.conjugate()) == (Cplx { re, im }));
    // ((z/q)·q)·|q|² = z·q̄·q = z·|q|²
    lemma_square_norm(q);
    let w = z.over(q);
    lemma_ring(w, q, cs);
    lemma_ring(q, cs, w);
    lemma_ring(w, cs, q);
    lemma_ring(z, q.conjugate(), q);
    lemma_cancel_factor(w.times(q), z, square);
}

/// A number divided by its length has length one.
proof fn lemma_unit<T: Real>(f: Cplx<T>, l: T)
    requires
        is_real_field::<T>(),
        f != Cplx::<T>::nought(),
        l.times(l) == f.square_norm(),
    ensures
        ({
            let u = f.over(Cplx::on_axis(l));
            &&& u.times(Cplx::on_axis(l)) == f
            &&& u.conjugate().times(u) == Cplx::<T>::unit()
        }),
{
    lemma_complex_ring::<T>();
    let cl = Cplx::on_axis(l);
    let u = f.over(cl);
    let one = Cplx::<T>::unit();
    lemma_square_norm_positive(f);
    lemma_times_nought(l);
    lemma_quotient(f, cl);
    lemma_conjugate(u, cl);
    lemma_axis(l, l);
    lemma_square_norm(f);
    // (ū·u)·l² = f̄·f = l²
    lemma_regroup(u.conjugate(), cl, u, cl);
    let square = l.times(l);
    lemma_ring(Cplx::on_axis(square), one, one);
    lemma_cancel_factor(u.conjugate().times(u), one, square);
}

/// In exact arithmetic the rotation `(c, s)` for `f` and `g` is one, `c² + |s|² = 1`, and it
/// eliminates: `−s̄·f + c·g` vanishes.
pub proof fn lemma_rotation<T: Real>(f: Cplx<T>, g: Cplx<T>)
    requires
        is_real_field::<T>(),
    ensures
        ({
            let (c, s) = rotation(f, g);
            let cc = Cplx::on_axis(c);
            &&& cc.times(cc).plus(s.conjugate().times(s)) == Cplx::<T>::unit()
            &&& s.conjugate().negated().times(f).plus(cc.times(g)) == Cplx::<T>::nought()
        }),
{
    lemma_complex_ring::<T>();
    let (zero, one) = (Cplx::<T>::nought(), Cplx::<T>::unit());
    let (c, s) = rotation(f, g);
    let cc = Cplx::on_axis(c);
    let (lf, lg) = (f.length(), g.length());
    lemma_length(f);
    lemma_length(g);
    lemma_conjugate(s, s);
    lemma_negative_nought::<Cplx<T>>();
    lemma_times_nought(f);
    lemma_times_nought(g);
    lemma_times_nought(zero);
    lemma_times_nought(s.conjugate().negated());
    lemma_ring(one, one, one);
    lemma_ring(zero, one, one);
    lemma_ring(zero, zero, zero);
    if g == zero {
        assert(cc == one && s == zero);
        lemma_times_nought(one);
    } else if f == zero {
        assert(cc == zero);
        lemma_conjugate(g, g);
        lemma_negative_square(g.im);
        lemma_unit(g.conjugate(), lg);
    } else {
        let d = lf.hypotenuse(lg);
        let (clf, cd) = (Cplx::on_axis(lf), Cplx::on_axis(d));
        let u = f.over(clf);
        lemma_unit(f, lf);
        // d² = lf² + lg², and is not zero.
        assert(real_laws(lf, lg));
        assert(real_laws(lf, lf));
        assert(real_laws(lg, lg));
        assert(real_laws(lf.times(lf), lg.times(lg)));
        lemma_square_norm_positive(f);
        let dd = d.times(d);
        assert(dd != T::nought());
        lemma_times_nought(d);
        assert(d != T::nought());
        // c·d = lf
        assert(real_laws(lf, d));
        lemma_axis(c, d);
        lemma_axis(lf, lf);
        lemma_axis(d, d);
        assert(cc.times(cd) == clf);
        // s·d = u·ḡ, s̄·d = ū·g
        let ug = u.times(g.conjugate());
        lemma_quotient(ug, cd);
        lemma_conjugate(s, cd);
        lemma_conjugate(u, g.conjugate());
        lemma_conjugate(g, g);
        assert(s.times(cd) == ug);
        assert(s.conjugate().times(cd) == u.conjugate().times(g));
        // (c² + s̄·s)·d² = lf² + g·ḡ = d²
        let cdd = Cplx::on_axis(dd);
        lemma_regroup(cc, cc, cd, cd);
        lemma_regroup(s.conjugate(), s, cd, cd);
        lemma_regroup(u.conjugate(), g, u, g.conjugate());
        lemma_square_norm(g);
        lemma_ring(g, g.conjugate(), g);
        lemma_ring(one, g.times(g.conjugate()), one);
        lemma_ring(g.times(g.conjugate()), one, one);
        lemma_axis(lf.times(lf), lg.times(lg));
        let both = cc.times(cc).plus(s.conjugate().times(s));
        lemma_ring(cdd, cc.times(cc), s.conjugate().times(s));
        lemma_ring(both, cdd, one);
        lemma_ring(cc.times(cc), cdd, one);
        lemma_ring(s.conjugate().times(s), cdd, one);
        assert(both.times(cdd) == cdd);
        lemma_ring(cdd, one, one);
        lemma_cancel_factor(both, one, dd);
        // (−s̄·f + c·g)·d = −ū·g·f + lf·g = 0, where ū·f = ū·u·lf = lf
        let (first, second) = (s.conjugate().negated().times(f), cc.times(g));
        lemma_ring(u.conjugate(), u, clf);
        lemma_ring(one, clf, one);
        lemma_ring(clf, one, one);
        assert(u.conjugate().times(f) == clf);
        lemma_ring(s.conjugate(), f, cd);
        lemma_ring(f, cd, one);
        lemma_ring(s.conjugate(), cd, f);
        lemma_ring(u.conjugate(), g, f);
        lemma_ring(g, f, one);
        lemma_ring(u.conjugate(), f, g);
        assert(s.conjugate().times(f).times(cd) == clf.times(g));
        lemma_times_negative(s.conjugate(), f);
        lemma_times_negative(s.conjugate().times(f), cd);
        assert(first.times(cd) == clf.times(g).negated());
        lemma_ring(cc, g, cd);
        lemma_ring(g, cd, one);
        lemma_ring(cc, cd, g);
        assert(second.times(cd) == clf.times(g));
        lemma_ring(cd, first, second);
        lemma_ring(first.plus(second), cd, one);
        lemma_ring(first, cd, one);
        lemma_ring(second, cd, one);
        lemma_ring(clf.times(g), clf.times(g).negated(), one);
        lemma_ring(clf.times(g), clf.times(g), one);
        lemma_times_nought(cd);
        lemma_cancel_factor(first.plus(second), zero, d);
    }
}

/// A number and its negative have the same square.
proof fn lemma_negative_square<T: Real>(a: T)
    requires
        is_ring::<T>(),
    ensures
        a.negated().times(a.negated()) == a.times(a),
{
    lemma_times_negative(a, a.negated());
    lemma_times_negative(a, a);
    lemma_times_negative(a.times(a), a);
}

/// `x·u + y·w`.
pub open spec fn blend<E: Field>(x: E, u: Seq<E>, y: E, w: Seq<E>) -> Seq<E> {
    Seq::new(u.len(), |i: int| x.times(u[i]).plus(y.times(w[i])))
}

/// An inner product with a combination of two vectors.
proof fn lemma_inner_sum_blend<T: Real>(
    a: Seq<Cplx<T>>,
    x: Cplx<T>,
    u: Seq<Cplx<T>>,
    y: Cplx<T>,
    w: Seq<Cplx<T>>,
    n: nat,
)
    requires
        is_ring::<T>(),
        n <= u.len(),
    ensures
        inner_sum(a, blend(x, u, y, w), n) == x.times(inner_sum(a, u, n)).plus(
            y.times(inner_sum(a, w, n)),
        ),
    decreases n,
{
    lemma_complex_ring::<T>();
    let zero = Cplx::<T>::nought();
    if n == 0 {
        lemma_times_nought(x);
        lemma_times_nought(y);
        lemma_ring(zero, zero, zero);
    } else {
        let less = (n - 1) as nat;
        lemma_inner_sum_blend(a, x, u, y, w, less);
        let (ac, un, wn) = (a[n - 1].conjugate(), u[n - 1], w[n - 1]);
        lemma_ring(ac, x.times(un), y.times(wn));
        lemma_ring(ac, x, un);
        lemma_ring(x, ac, un);
        lemma_ring(ac, y, wn);
        lemma_ring(y, ac, wn);
        lemma_ring(x, inner_sum(a, u, less), ac.times(un));
        lemma_ring(y, inner_sum(a, w, less), ac.times(wn));
        lemma_plus_plus(
            x.times(inner_sum(a, u, less)),
            y.times(inner_sum(a, w, less)),
            x.times(ac.times(un)),
            y.times(ac.times(wn)),
        );
    }
}

/// Exchanging the two factors conjugates an inner product.
proof fn lemma_inner_sum_exchanged<T: Real>(a: Seq<Cplx<T>>, b: Seq<Cplx<T>>, n: nat)
    requires
        is_ring::<T>(),
    ensures
        inner_sum(a, b, n) == inner_sum(b, a, n).conjugate(),
    decreases n,
{
    lemma_complex_ring::<T>();
    if n == 0 {
        lemma_conjugate(Cplx::<T>::nought(), Cplx::<T>::nought());
    } else {
        let less = (n - 1) as nat;
        lemma_inner_sum_exchanged(a, b, less);
        let (x, y) = (a[n - 1], b[n - 1]);
        lemma_conjugate(inner_sum(b, a, less), y.conjugate().times(x));
        lemma_conjugate(y.conjugate(), x);
        lemma_conjugate(y, x);
        lemma_ring(y, x.conjugate(), x);
    }
}

/// The inner product is linear in its second factor, conjugate-linear in its first, and
/// conjugated by exchanging the two.
pub proof fn lemma_inner<T: Real>(
    a: Seq<Cplx<T>>,
    x: Cplx<T>,
    u: Seq<Cplx<T>>,
    y: Cplx<T>,
    w: Seq<Cplx<T>>,
)
    requires
        is_ring::<T>(),
        a.len() == u.len(),
        a.len() == w.len(),
    ensures
        inner_product(a, blend(x, u, y, w)) == x.times(inner_product(a, u)).plus(
            y.times(inner_product(a, w)),
        ),
        inner_product(blend(x, u, y, w), a) == x.conjugate().times(inner_product(u, a)).plus(
            y.conjugate().times(inner_product(w, a)),
        ),
        inner_product(u, a) == inner_product(a, u).conjugate(),
        inner_product(w, a) == inner_product(a, w).conjugate(),
{
    let n = a.len();
    lemma_inner_sum_blend(a, x, u, y, w, n);
    lemma_inner_sum_exchanged(u, a, n);
    lemma_inner_sum_exchanged(w, a, n);
    lemma_inner_sum_exchanged(blend(x, u, y, w), a, n);
    let (p, q) = (inner_product(a, u), inner_product(a, w));
    lemma_conjugate(x.times(p), y.times(q));
    lemma_conjugate(x, p);
    lemma_conjugate(y, q);
}

/// The inner product of a vector with itself is the sum of the squared absolute values.
pub proof fn lemma_inner_self<T: Real>(a: Seq<Cplx<T>>, n: nat)
    requires
        is_real_field::<T>(),
    ensures
        inner_sum(a, a, n) == Cplx::on_axis(square_sum(a, n)),
        T::nought().at_most(square_sum(a, n)),
    decreases n,
{
    if n == 0 {
        lemma_square_norm_positive(Cplx::<T>::nought());
    } else {
        let less = (n - 1) as nat;
        lemma_inner_self(a, less);
        lemma_square_norm(a[n - 1]);
        lemma_square_norm_positive(a[n - 1]);
        lemma_axis(square_sum(a, less), a[n - 1].square_norm());
        assert(real_laws(square_sum(a, less), a[n - 1].square_norm()));
    }
}

/// A vector divided by its norm has norm one, and gives the vector back when it is multiplied by
/// the norm.
pub proof fn lemma_normalised<T: Real>(a: Seq<Cplx<T>>)
    requires
        is_real_field::<T>(),
        complex_euclidean(a) != T::nought(),
    ensures
        ({
            let u = multiplied(a, Cplx::on_axis(T::unit().over(complex_euclidean(a))));
            &&& inner_product(u, u) == Cplx::<T>::unit()
            &&& forall|i: int|
                0 <= i < a.len() ==> Cplx::on_axis(complex_euclidean(a)).times(#[trigger] u[i])
                    == a[i]
        }),
{
    lemma_complex_ring::<T>();
    let n = a.len();
    let norm = complex_euclidean(a);
    let q = T::unit().over(norm);
    let (cn, cq) = (Cplx::on_axis(norm), Cplx::on_axis(q));
    let (zero, one) = (Cplx::<T>::nought(), Cplx::<T>::unit());
    let u = multiplied(a, cq);
    assert(real_laws(T::unit(), norm));
    lemma_axis(q, norm);
    assert(cq.times(cn) == one);
    assert forall|i: int| 0 <= i < n implies cn.times(#[trigger] u[i]) == a[i] by {
        lemma_ring(cn, u[i], one);
        lemma_ring(a[i], cq, cn);
        lemma_ring(a[i], one, one);
    }
    let same = blend(cn, u, zero, u);
    assert forall|i: int| 0 <= i < n implies same[i] == a[i] by {
        lemma_times_nought(u[i]);
        lemma_ring(a[i], zero, zero);
        assert(cn.times(u[i]) == a[i]);
    }
    assert(same =~= a);
    lemma_inner(u, cn, u, zero, u);
    lemma_inner(a, cn, u, zero, u);
    let (uu, ua) = (inner_product(u, u), inner_product(u, a));
    lemma_times_nought(uu);
    lemma_times_nought(inner_product(u, a));
    lemma_axis(norm, norm);
    lemma_conjugate(zero, zero);
    lemma_ring(cn.times(uu), zero, zero);
    lemma_ring(cn.times(ua), zero, zero);
    // ‖a‖² = n·n·⟨u, u⟩
    assert(inner_product(a, a) == cn.times(cn.times(uu)));
    lemma_inner_self(a, n);
    assert(real_laws(square_sum(a, n), square_sum(a, n)));
    let square = norm.times(norm);
    lemma_ring(cn, cn, uu);
    lemma_ring(Cplx::on_axis(square), uu, uu);
    lemma_ring(one, Cplx::on_axis(square), one);
    lemma_ring(Cplx::on_axis(square), one, one);
    if square == T::nought() {
        lemma_square_nought(norm);
    }
    lemma_cancel_factor(uu, one, square);
}

/// `(c·a + s·b)·(c·l + s̄·v) + (−s̄·a + c·b)·(−s·l + c·v) = a·l + b·v` for a rotation `(c, s)`.
pub proof fn lemma_turn<T: Real>(
    c: Cplx<T>,
    s: Cplx<T>,
    a: Cplx<T>,
    b: Cplx<T>,
    l: Cplx<T>,
    v: Cplx<T>,
)
    requires
        is_ring::<T>(),
        c.times(c).plus(s.conjugate().times(s)) == Cplx::<T>::unit(),
    ensures
        c.times(a).plus(s.times(b)).times(c.times(l).plus(s.conjugate().times(v))).plus(
            s.conjugate().negated().times(a).plus(c.times(b)).times(
                s.negated().times(l).plus(c.times(v)),
            ),
        ) == a.times(l).plus(b.times(v)),
{
    lemma_complex_ring::<T>();
    let (zero, one) = (Cplx::<T>::nought(), Cplx::<T>::unit());
    let t = s.conjugate();
    let (al, bv, av, bl) = (a.times(l), b.times(v), a.times(v), b.times(l));
    let (cc, ts, ct, cs) = (c.times(c), t.times(s), c.times(t), c.times(s));
    lemma_expand(c.times(a), s.times(b), c.times(l), t.times(v));
    lemma_regroup(c, a, c, l);
    lemma_regroup(s, b, t, v);
    lemma_regroup(c, a, t, v);
    lemma_regroup(s, b, c, l);
    lemma_ring(s, t, one);
    lemma_ring(s, c, one);
    lemma_expand(t.negated().times(a), c.times(b), s.negated().times(l), c.times(v));
    lemma_regroup(t.negated(), a, s.negated(), l);
    lemma_regroup(c, b, c, v);
    lemma_regroup(t.negated(), a, c, v);
    lemma_regroup(c, b, s.negated(), l);
    lemma_times_negative(t, s.negated());
    lemma_times_negative(t, s);
    lemma_times_negative(ts, ts);
    lemma_times_negative(t, c);
    lemma_times_negative(c, s);
    lemma_ring(t, c, one);
    lemma_times_negative(ct, av);
    lemma_times_negative(cs, bl);
    let (p, q, x, y) = (cc.times(al), ts.times(bv), ct.times(av), cs.times(bl));
    let (p2, q2) = (ts.times(al), cc.times(bv));
    // (p + q) + (x + y) + (p2 + q2) + (−x − y)
    lemma_plus_plus(p.plus(q), x.plus(y), p2.plus(q2), x.negated().plus(y.negated()));
    lemma_negative_sum(x, y);
    lemma_ring(x.plus(y), x.plus(y), zero);
    lemma_plus_plus(p, q, p2, q2);
    lemma_ring(p.plus(p2).plus(q.plus(q2)), zero, zero);
    // p + p2 = (cc + ts)·al
    lemma_ring(al, cc, ts);
    lemma_ring(cc, al, one);
    lemma_ring(ts, al, one);
    lemma_ring(al, one, one);
    lemma_ring(bv, cc, ts);
    lemma_ring(cc, bv, one);
    lemma_ring(ts, bv, one);
    lemma_ring(bv, one, one);
    lemma_ring(q, q2, one);
}

/// `(p + q)·(u + w) = (p·u + q·w) + (p·w + q·u)`.
proof fn lemma_expand<E: Field>(p: E, q: E, u: E, w: E)
    requires
        is_ring::<E>(),
    ensures
        p.plus(q).times(u.plus(w)) == p.times(u).plus(q.times(w)).plus(
            p.times(w).plus(q.times(u)),
        ),
{
    let sum = u.plus(w);
    lemma_ring(sum, p, q);
    lemma_ring(p.plus(q), sum, p);
    lemma_ring(sum, p, p);
    lemma_ring(sum, q, q);
    lemma_ring(p, u, w);
    lemma_ring(p, sum, p);
    lemma_ring(q, u, w);
    lemma_ring(q, sum, q);
    lemma_ring(q.times(u), q.times(w), q);
    lemma_plus_plus(p.times(u), p.times(w), q.times(w), q.times(u));
}

/// The dot product of a real vector with itself is not negative, and zero only where the vector is.
proof fn lemma_dot_self<T: Real>(x: Seq<T>, n: nat)
    requires
        is_real_field::<T>(),
    ensures
        T::nought().at_most(dot_sum(x, x, n)),
        dot_sum(x, x, n) == T::nought() <==> forall|i: int|
            0 <= i < n ==> #[trigger] x[i] == T::nought(),
    decreases n,
{
    let zero = T::nought();
    lemma_times_nought(zero);
    lemma_ring(zero, zero, zero);
    assert(real_laws(zero, zero));
    if n > 0 {
        let less = (n - 1) as nat;
        lemma_dot_self(x, less);
        let (sum, square) = (dot_sum(x, x, less), x[n - 1].times(x[n - 1]));
        assert(real_laws(x[n - 1], x[n - 1]));
        assert(real_laws(sum, square));
        if dot_sum(x, x, n) == zero {
            lemma_square_nought(x[n - 1]);
            assert forall|i: int| 0 <= i < n implies #[trigger] x[i] == zero by {
                if i < n - 1 {
                    assert(sum == zero);
                }
            }
        }
        if forall|i: int| 0 <= i < n ==> #[trigger] x[i] == zero {
            assert(x[n - 1] == zero);
        }
    }
}

/// In exact arithmetic, the Euclidean norm of a real vector is not negative, squares to its dot
/// product with itself, and is zero only where the vector is.
pub proof fn lemma_euclidean<T: Real>(x: Seq<T>)
    requires
        is_real_field::<T>(),
    ensures
        T::nought().at_most(euclidean(x)),
        euclidean(x).times(euclidean(x)) == dot_product(x, x),
        euclidean(x) == T::nought() <==> forall|i: int|
            0 <= i < x.len() ==> #[trigger] x[i] == T::nought(),
{
    lemma_dot_self(x, x.len());
    let square = dot_product(x, x);
    assert(real_laws(square, square));
    lemma_times_nought(T::nought());
    if square == T::nought() {
        lemma_square_nought(euclidean(x));
    }
}

/// In exact arithmetic, the Euclidean norm of a complex vector is not negative, squares to the sum
/// of the squared absolute values of its entries, and is zero only where the vector is.
pub proof fn lemma_complex_norm<T: Real>(x: Seq<Cplx<T>>)
    requires
        is_real_field::<T>(),
    ensures
        T::nought().at_most(complex_euclidean(x)),
        Cplx::on_axis(complex_euclidean(x).times(complex_euclidean(x))) == inner_product(x, x),
        complex_euclidean(x) == T::nought() <==> forall|i: int|
            0 <= i < x.len() ==> #[trigger] x[i] == Cplx::<T>::nought(),
{
    lemma_inner_self(x, x.len());
    lemma_square_sum_zero(x, x.len());
    let square = square_sum(x, x.len());
    assert(real_laws(square, square));
    lemma_times_nought(T::nought());
    if square == T::nought() {
        lemma_square_nought(complex_euclidean(x));
    }
}

proof fn lemma_square_sum_zero<T: Real>(x: Seq<Cplx<T>>, n: nat)
    requires
        is_real_field::<T>(),
    ensures
        square_sum(x, n) == T::nought() <==> forall|i: int|
            0 <= i < n ==> #[trigger] x[i] == Cplx::<T>::nought(),
    decreases n,
{
    let zero = T::nought();
    lemma_ring(zero, zero, zero);
    if n > 0 {
        let less = (n - 1) as nat;
        lemma_square_sum_zero(x, less);
        lemma_inner_self(x, less);
        lemma_square_norm_positive(x[n - 1]);
        let (sum, square) = (square_sum(x, less), x[n - 1].square_norm());
        assert(real_laws(sum, square));
        if square_sum(x, n) == zero {
            assert forall|i: int| 0 <= i < n implies #[trigger] x[i] == Cplx::<T>::nought() by {
                if i < n - 1 {
                    assert(sum == zero);
                }
            }
        }
        if forall|i: int| 0 <= i < n ==> #[trigger] x[i] == Cplx::<T>::nought() {
            assert(x[n - 1] == Cplx::<T>::nought());
        }
    }
}

/// In exact arithmetic, scaling a complex number by a real one is multiplying the two.
pub proof fn lemma_stretched<T: Real>(z: Cplx<T>, factor: T)
    requires
        is_ring::<T>(),
    ensures
        z.stretched(factor) == z.times(Cplx::on_axis(factor)),
{
    lemma_times_nought(z.re);
    lemma_times_nought(z.im);
    lemma_negative_nought::<T>();
    lemma_ring(z.re.times(factor), T::nought(), T::nought());
    lemma_ring(z.im.times(factor), T::nought(), T::nought());
}

} // verus!
