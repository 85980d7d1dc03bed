//! What the fast Fourier transform computes, in exact arithmetic.
use crate::complex::Cplx;
use crate::exact::{
    is_ring, lemma_negative, lemma_negative_sum, lemma_plus_plus, lemma_ring, lemma_times_negative,
    lemma_times_nought, lemma_total_same, ring_laws, total,
};
use crate::fft::{evens, is_power_of_two, lemma_transform_length, odds, transform, twiddle};
use crate::scalar::{Field, Real};
use crate::vector::{plus_multiple, zero_vector};
use vstd::prelude::*;

verus! {

/// The addition theorems, for two angles.
pub open spec fn addition_theorems<T: Real>(a: T, b: T) -> bool {
    &&& a.plus(b).cosine() == a.cosine().times(b.cosine()).minus(a.sine().times(b.sine()))
    &&& a.plus(b).sine() == a.cosine().times(b.sine()).plus(a.sine().times(b.cosine()))
    &&& a.negated().cosine() == a.cosine()
    &&& a.negated().sine() == a.sine().negated()
}

/// Counting and dividing by a count, for the number `a` and the count `n`.
pub open spec fn counts<T: Real>(a: T, n: nat) -> bool {
    &&& T::whole(n + 1) == T::whole(n).plus(T::unit())
    &&& n >= 1 ==> a.over(T::whole(n)).times(T::whole(n)) == a
    &&& n >= 1 ==> a.times(T::whole(n)).over(T::whole(n)) == a
}

/// The numbers are real numbers and nothing is rounded: they form a ring in which one can divide
/// by whole numbers, and sine and cosine are what they should be.
pub open spec fn exact<T: Real>() -> bool {
    &&& is_ring::<T>()
    &&& T::whole(0) == T::nought()
    &&& forall|a: T, n: nat| #[trigger] counts(a, n)
    &&& forall|a: T, b: T| #[trigger] addition_theorems(a, b)
    &&& T::nought().cosine() == T::unit()
    &&& T::nought().sine() == T::nought()
    &&& T::half_turn().cosine() == T::unit().negated()
    &&& T::half_turn().sine() == T::nought()
}

/// Complex numbers over a ring form a ring.
pub proof fn lemma_complex_ring<T: Real>()
    requires
        is_ring::<T>(),
    ensures
        is_ring::<Cplx<T>>(),
{
    assert forall|a: Cplx<T>, b: Cplx<T>, c: Cplx<T>| #[trigger] ring_laws(a, b, c) by {
        lemma_complex_laws(a, b, c);
    }
}

proof fn lemma_complex_laws<T: Real>(a: Cplx<T>, b: Cplx<T>, c: Cplx<T>)
    requires
        is_ring::<T>(),
    ensures
        ring_laws(a, b, c),
{
    let zero = T::nought();
    lemma_ring(a.re, b.re, c.re);
    lemma_ring(a.im, b.im, c.im);
    // The order of the factors.
    lemma_ring(a.re, b.im, c.re);
    lemma_ring(a.im, b.re, c.re);
    lemma_ring(a.re.times(b.im), a.im.times(b.re), zero);
    assert(a.times(b) == b.times(a));
    // The unit.
    lemma_times_nought(a.re);
    lemma_times_nought(a.im);
    lemma_ring(a.re, zero, zero);
    lemma_ring(zero, zero, zero);
    lemma_ring(zero, a.im, zero);
    lemma_ring(zero, zero.negated(), zero);
    lemma_ring(a.im, zero, zero);
    lemma_negative(zero, zero);
    assert(a.times(Cplx::unit()) == a);
    // Products of sums.
    lemma_difference_of_products(a.re, b.re, c.re, a.im, b.im, c.im);
    lemma_ring(a.re, b.im, c.im);
    lemma_ring(a.im, b.re, c.re);
    lemma_plus_plus(a.re.times(b.im), a.re.times(c.im), a.im.times(b.re), a.im.times(c.re));
    assert(a.times(b.plus(c)) == a.times(b).plus(a.times(c)));
    // Threefold products.
    lemma_triple(a, b, c);
}

/// `p(q + r) − s(t + u)` in terms of products.
proof fn lemma_difference_of_products<T: Real>(p: T, q: T, r: T, s: T, t: T, u: T)
    requires
        is_ring::<T>(),
    ensures
        p.times(q.plus(r)).minus(s.times(t.plus(u))) == p.times(q).minus(s.times(t)).plus(
            p.times(r).minus(s.times(u)),
        ),
{
    lemma_ring(p, q, r);
    lemma_ring(s, t, u);
    lemma_negative_sum(s.times(t), s.times(u));
    lemma_ring(p.times(q.plus(r)), s.times(t.plus(u)), p);
    lemma_ring(p.times(q), s.times(t), p);
    lemma_ring(p.times(r), s.times(u), p);
    lemma_plus_plus(
        p.times(q),
        p.times(r),
        s.times(t).negated(),
        s.times(u).negated(),
    );
}

/// `(p·q ± s·t)·u`, multiplied out.
proof fn lemma_sum_times<T: Real>(p: T, q: T, s: T, t: T, u: T)
    requires
        is_ring::<T>(),
    ensures
        p.times(q).minus(s.times(t)).times(u) == p.times(q.times(u)).plus(
            s.times(t.times(u)).negated(),
        ),
        p.times(q).plus(s.times(t)).times(u) == p.times(q.times(u)).plus(s.times(t.times(u))),
        u.times(p.times(q).minus(s.times(t))) == u.times(p.times(q)).plus(
            u.times(s.times(t)).negated(),
        ),
{
    let (pq, st) = (p.times(q), s.times(t));
    lemma_ring(p, q, u);
    lemma_ring(s, t, u);
    lemma_ring(pq, st, u);
    lemma_ring(u, pq, st.negated());
    lemma_ring(u, pq, st);
    lemma_ring(u, st, st);
    lemma_ring(pq.plus(st.negated()), u, u);
    lemma_ring(pq.plus(st), u, u);
    lemma_times_negative(u, st);
}

proof fn lemma_triple<T: Real>(a: Cplx<T>, b: Cplx<T>, c: Cplx<T>)
    requires
        is_ring::<T>(),
    ensures
        a.times(b).times(c) == a.times(b.times(c)),
{
    // Real part: P − Q − R − S with the four products below.
    let p = a.re.times(b.re.times(c.re));
    let q = a.im.times(b.im.times(c.re));
    let r = a.re.times(b.im.times(c.im));
    let s = a.im.times(b.re.times(c.im));
    let (left, right) = (a.times(b).times(c), a.times(b.times(c)));
    lemma_sum_times(a.re, b.re, a.im, b.im, c.re);
    lemma_sum_times(a.re, b.im, a.im, b.re, c.im);
    lemma_sum_times(b.re, c.re, b.im, c.im, a.re);
    lemma_ring(a.im, b.re.times(c.im), b.im.times(c.re));
    lemma_ring(
        a.times(b).re.times(c.re),
        a.times(b).im.times(c.im),
        c.re,
    );
    lemma_negative_sum(r, s);
    assert(left.re == p.plus(q.negated()).plus(r.negated().plus(s.negated())));
    lemma_ring(a.re.times(b.times(c).re), a.im.times(b.times(c).im), c.re);
    lemma_negative_sum(s, q);
    assert(right.re == p.plus(r.negated()).plus(s.negated().plus(q.negated())));
    lemma_plus_plus(p, q.negated(), r.negated(), s.negated());
    lemma_ring(q.negated(), s.negated(), c.re);
    assert(left.re == right.re);
    // Imaginary part.
    let t = a.re.times(b.re.times(c.im));
    let u = a.im.times(b.im.times(c.im));
    let v = a.re.times(b.im.times(c.re));
    let w = a.im.times(b.re.times(c.re));
    lemma_sum_times(a.re, b.re, a.im, b.im, c.im);
    lemma_sum_times(a.re, b.im, a.im, b.re, c.re);
    assert(left.im == t.plus(u.negated()).plus(v.plus(w)));
    lemma_ring(a.re, b.re.times(c.im), b.im.times(c.re));
    lemma_sum_times(b.re, c.re, b.im, c.im, a.im);
    assert(right.im == t.plus(v).plus(w.plus(u.negated())));
    lemma_plus_plus(t, u.negated(), v, w);
    lemma_ring(u.negated(), w, c.re);
    assert(left.im == right.im);
}

/// The angle of a twiddle factor.
pub open spec fn angle<T: Real>(l: nat, k: nat) -> T {
    T::half_turn().over(T::whole(l)).times(T::whole(k))
}

pub proof fn lemma_whole_sum<T: Real>(j: nat, k: nat)
    requires
        exact::<T>(),
    ensures
        T::whole(j + k) == T::whole(j).plus(T::whole(k)),
    decreases k,
{
    let (wj, wk) = (T::whole(j), T::whole(k));
    if k == 0 {
        lemma_ring(wj, wk, wk);
    } else {
        let less = (k - 1) as nat;
        lemma_whole_sum::<T>(j, less);
        assert(counts(wj, less) && counts(wj, (j + less) as nat));
        lemma_ring(wj, T::whole(less), T::unit());
    }
}

proof fn lemma_angle_sum<T: Real>(l: nat, j: nat, k: nat)
    requires
        exact::<T>(),
    ensures
        angle::<T>(l, j + k) == angle::<T>(l, j).plus(angle::<T>(l, k)),
{
    lemma_whole_sum::<T>(j, k);
    lemma_ring(T::half_turn().over(T::whole(l)), T::whole(j), T::whole(k));
}

/// Twiddle factors multiply like powers.
pub proof fn lemma_twiddle_sum<T: Real>(l: nat, j: nat, k: nat, inv: bool)
    requires
        exact::<T>(),
    ensures
        twiddle::<T>(l, j + k, inv) == twiddle::<T>(l, j, inv).times(twiddle::<T>(l, k, inv)),
{
    let (a, b) = (angle::<T>(l, j), angle::<T>(l, k));
    lemma_angle_sum::<T>(l, j, k);
    assert(addition_theorems(a, b));
    let (s, t) = (a.sine(), b.sine());
    lemma_times_negative(s, t.negated());
    lemma_times_negative(s, t);
    lemma_times_negative(s.times(t), s);
    lemma_times_negative(a.cosine(), t);
    lemma_times_negative(s, b.cosine());
    lemma_negative_sum(a.cosine().times(t), s.times(b.cosine()));
}

/// The first twiddle factor is one.
pub proof fn lemma_twiddle_start<T: Real>(l: nat, inv: bool)
    requires
        exact::<T>(),
    ensures
        twiddle::<T>(l, 0, inv) == Cplx::<T>::unit(),
{
    let zero = T::nought();
    lemma_times_nought(T::half_turn().over(T::whole(l)));
    lemma_ring(zero, zero, zero);
    lemma_negative(zero, zero);
}

/// Half a turn is minus one.
pub proof fn lemma_twiddle_half<T: Real>(l: nat, inv: bool)
    requires
        exact::<T>(),
        l >= 1,
    ensures
        twiddle::<T>(l, l, inv) == Cplx::<T>::unit().negated(),
{
    let zero = T::nought();
    assert(counts(T::half_turn(), l));
    lemma_ring(zero, zero, zero);
    lemma_negative(zero, zero);
}

/// Twice the steps of half the size.
pub proof fn lemma_twiddle_double<T: Real>(l: nat, k: nat, inv: bool)
    requires
        exact::<T>(),
        l >= 1,
    ensures
        twiddle::<T>(2 * l, 2 * k, inv) == twiddle::<T>(l, k, inv),
{
    let pi = T::half_turn();
    let h = pi.over(T::whole(2 * l));
    let (wl, wk) = (T::whole(l), T::whole(k));
    lemma_whole_sum::<T>(l, l);
    lemma_whole_sum::<T>(k, k);
    assert(counts(pi, 2 * l));
    assert(h.times(T::whole(2 * l)) == pi);
    assert(T::whole(2 * l) == wl.plus(wl));
    lemma_ring(h, wl, wl);
    lemma_ring(wl, h, h);
    lemma_ring(h.plus(h), wl, wl);
    assert(h.plus(h).times(wl) == pi);
    assert(counts(h.plus(h), l));
    assert(h.plus(h) == pi.over(wl));
    assert(T::whole(2 * k) == wk.plus(wk));
    lemma_ring(h, wk, wk);
    lemma_ring(wk, h, h);
    lemma_ring(h.plus(h), wk, wk);
}

/// The two directions undo each other.
pub proof fn lemma_twiddle_opposite<T: Real>(l: nat, k: nat)
    requires
        exact::<T>(),
    ensures
        twiddle::<T>(l, k, true).times(twiddle::<T>(l, k, false)) == Cplx::<T>::unit(),
{
    let a = angle::<T>(l, k);
    assert(addition_theorems(a, a.negated()));
    assert(addition_theorems(a, a));
    lemma_ring(a, a, a);
}

/// The root of unity `exp(∓2πi·m/n)`.
pub open spec fn root<T: Real>(n: nat, m: nat, inv: bool) -> Cplx<T> {
    twiddle::<T>(n, 2 * m, inv)
}

/// Roots of unity multiply like powers.
pub proof fn lemma_root_sum<T: Real>(n: nat, j: nat, k: nat, inv: bool)
    requires
        exact::<T>(),
    ensures
        root::<T>(n, j + k, inv) == root::<T>(n, j, inv).times(root::<T>(n, k, inv)),
{
    lemma_twiddle_sum::<T>(n, 2 * j, 2 * k, inv);
}

/// Roots of unity repeat after `n` steps.
pub proof fn lemma_root_turns<T: Real>(n: nat, m: nat, inv: bool)
    requires
        exact::<T>(),
        n >= 1,
    ensures
        root::<T>(n, m * n, inv) == Cplx::<T>::unit(),
    decreases m,
{
    lemma_complex_ring::<T>();
    let one = Cplx::<T>::unit();
    if m == 0 {
        assert(m * n == 0) by (nonlinear_arith)
            requires
                m == 0,
        ;
        lemma_twiddle_start::<T>(n, inv);
    } else {
        let less = (m - 1) as nat;
        assert(m * n == less * n + n) by (nonlinear_arith)
            requires
                m == less + 1,
        ;
        lemma_root_turns::<T>(n, less, inv);
        lemma_root_sum::<T>(n, less * n, n, inv);
        lemma_twiddle_half::<T>(n, inv);
        lemma_twiddle_sum::<T>(n, n, n, inv);
        lemma_times_negative(one.negated(), one);
        lemma_times_negative(one, one);
        lemma_ring(one, one, one);
    }
}

/// Roots of unity depend on the remainder only.
pub proof fn lemma_root_remainder<T: Real>(n: nat, m: nat, p: nat, inv: bool)
    requires
        exact::<T>(),
        n >= 1,
    ensures
        root::<T>(n, m * p, inv) == root::<T>(n, (m % n) * p, inv),
{
    lemma_complex_ring::<T>();
    let (q, r) = (m / n, m % n);
    vstd::arithmetic::div_mod::lemma_fundamental_div_mod(m as int, n as int);
    assert(m * p == (q * p) * n + r * p) by (nonlinear_arith)
        requires
            m == n * q + r,
    ;
    lemma_root_sum::<T>(n, (q * p) * n, r * p, inv);
    lemma_root_turns::<T>(n, q * p, inv);
    lemma_ring(root::<T>(n, r * p, inv), Cplx::<T>::unit(), Cplx::<T>::unit());
}

/// A butterfly of combined numbers is the combination of two butterflies.
proof fn lemma_butterfly<E: Field>(e: E, f: E, o: E, q: E, w: E, c: E)
    requires
        is_ring::<E>(),
    ensures
        e.plus(c.times(f)).plus(w.times(o.plus(c.times(q)))) == e.plus(w.times(o)).plus(
            c.times(f.plus(w.times(q))),
        ),
        e.plus(c.times(f)).minus(w.times(o.plus(c.times(q)))) == e.minus(w.times(o)).plus(
            c.times(f.minus(w.times(q))),
        ),
{
    let (wo, wq, cf) = (w.times(o), w.times(q), c.times(f));
    lemma_ring(w, o, c.times(q));
    lemma_ring(w, c, q);
    lemma_ring(c, w, q);
    assert(w.times(o.plus(c.times(q))) == wo.plus(c.times(wq)));
    lemma_plus_plus(e, cf, wo, c.times(wq));
    lemma_ring(c, f, wq);
    lemma_negative_sum(wo, c.times(wq));
    lemma_ring(e.plus(cf), wo.plus(c.times(wq)), e);
    lemma_plus_plus(e, cf, wo.negated(), c.times(wq).negated());
    lemma_ring(e, wo, e);
    lemma_ring(f, wq, e);
    lemma_ring(c, f, wq.negated());
    lemma_times_negative(c, wq);
}

/// The transform is linear.
pub proof fn lemma_transform_linear<T: Real>(
    s: Seq<Cplx<T>>,
    c: Cplx<T>,
    t: Seq<Cplx<T>>,
    inv: bool,
)
    requires
        exact::<T>(),
        s.len() == t.len(),
        s.len() <= 1 || is_power_of_two(s.len()),
    ensures
        transform(plus_multiple(s, c, t), inv) == plus_multiple(
            transform(s, inv),
            c,
            transform(t, inv),
        ),
    decreases s.len(),
{
    lemma_complex_ring::<T>();
    let both = plus_multiple(s, c, t);
    lemma_transform_length(s, inv);
    lemma_transform_length(t, inv);
    if s.len() > 1 {
        assert(evens(both) =~= plus_multiple(evens(s), c, evens(t)));
        assert(odds(both) =~= plus_multiple(odds(s), c, odds(t)));
        lemma_transform_linear(evens(s), c, evens(t), inv);
        lemma_transform_linear(odds(s), c, odds(t), inv);
        lemma_transform_length(evens(s), inv);
        lemma_transform_length(odds(s), inv);
        lemma_transform_length(evens(t), inv);
        lemma_transform_length(odds(t), inv);
        let l = s.len() / 2;
        let (es, os) = (transform(evens(s), inv), transform(odds(s), inv));
        let (et, ot) = (transform(evens(t), inv), transform(odds(t), inv));
        assert forall|p: int| 0 <= p < s.len() implies transform(both, inv)[p] == plus_multiple(
            transform(s, inv),
            c,
            transform(t, inv),
        )[p] by {
            let q = if p < l {
                p
            } else {
                p - l
            };
            lemma_butterfly(es[q], et[q], os[q], ot[q], twiddle::<T>(l, q as nat, inv), c);
        }
        assert(transform(both, inv) =~= plus_multiple(transform(s, inv), c, transform(t, inv)));
    }
}

/// The transform of zeros.
proof fn lemma_transform_nought<T: Real>(n: nat, inv: bool)
    requires
        exact::<T>(),
        n <= 1 || is_power_of_two(n),
    ensures
        transform(zero_vector::<Cplx<T>>(n), inv) == zero_vector::<Cplx<T>>(n),
    decreases n,
{
    lemma_complex_ring::<T>();
    let zeros = zero_vector::<Cplx<T>>(n);
    let zero = Cplx::<T>::nought();
    if n > 1 {
        let half = zero_vector::<Cplx<T>>(n / 2);
        assert(evens(zeros) =~= half);
        assert(odds(zeros) =~= half);
        lemma_transform_nought::<T>(n / 2, inv);
        assert forall|p: int| 0 <= p < n implies transform(zeros, inv)[p] == zero by {
            let q = if p < n / 2 {
                p
            } else {
                p - n / 2
            };
            lemma_times_nought(twiddle::<T>(n / 2, q as nat, inv));
            lemma_ring(zero, zero, zero);
        }
        assert(transform(zeros, inv) =~= zeros);
    }
}

/// The vector of length `n` with one at position `a` and zero elsewhere.
pub open spec fn unit_vector<T: Real>(n: nat, a: int) -> Seq<Cplx<T>> {
    Seq::new(
        n,
        |j: int|
            if j == a {
                Cplx::<T>::unit()
            } else {
                Cplx::<T>::nought()
            },
    )
}

/// The roots of unity that belong to position `a`.
pub open spec fn wave<T: Real>(n: nat, a: nat, inv: bool) -> Seq<Cplx<T>> {
    Seq::new(n, |p: int| root::<T>(n, (a * p) as nat, inv))
}

/// The transform of a unit vector is a wave.
proof fn lemma_transform_unit<T: Real>(n: nat, a: nat, inv: bool)
    requires
        exact::<T>(),
        a < n,
        is_power_of_two(n),
    ensures
        transform(unit_vector::<T>(n, a as int), inv) == wave::<T>(n, a, inv),
    decreases n,
{
    lemma_complex_ring::<T>();
    let delta = unit_vector::<T>(n, a as int);
    let (one, zero) = (Cplx::<T>::unit(), Cplx::<T>::nought());
    lemma_transform_length(delta, inv);
    if n == 1 {
        lemma_twiddle_start::<T>(1, inv);
        assert(wave::<T>(1, 0, inv)[0] == one);
        assert(transform(delta, inv) =~= wave::<T>(n, a, inv));
    } else {
        let l = n / 2;
        let b = a / 2;
        let zeros = zero_vector::<Cplx<T>>(l);
        let half = unit_vector::<T>(l, b as int);
        lemma_transform_nought::<T>(l, inv);
        lemma_transform_unit::<T>(l, b, inv);
        let part = wave::<T>(l, b, inv);
        if a % 2 == 0 {
            assert(evens(delta) =~= half);
            assert(odds(delta) =~= zeros);
        } else {
            assert(evens(delta) =~= zeros);
            assert(odds(delta) =~= half);
        }
        assert forall|p: int| 0 <= p < n implies transform(delta, inv)[p] == wave::<T>(
            n,
            a,
            inv,
        )[p] by {
            let q = if p < l {
                p
            } else {
                p - l
            } as nat;
            let w = twiddle::<T>(l, q, inv);
            lemma_times_nought(w);
            lemma_ring(part[q as int], zero, zero);
            lemma_ring(zero, w.times(part[q as int]), zero);
            lemma_ring(zero, zero, zero);
            lemma_negative(zero, zero);
            lemma_ring(w.times(part[q as int]).negated(), zero, zero);
            lemma_wave_halves::<T>(l, a, q, inv);
            lemma_ring(w, part[q as int], zero);
            assert(n == 2 * l);
            if p >= l {
                assert(a * p == a * (l + q)) by (nonlinear_arith)
                    requires
                        p == l + q,
                ;
            }
        }
        assert(transform(delta, inv) =~= wave::<T>(n, a, inv));
    }
}

/// A wave of length `2l` in terms of one of length `l`.
proof fn lemma_wave_halves<T: Real>(l: nat, a: nat, q: nat, inv: bool)
    requires
        exact::<T>(),
        l >= 1,
    ensures
        ({
            let part = root::<T>(l, (a / 2) * q, inv);
            let w = twiddle::<T>(l, q, inv);
            if a % 2 == 0 {
                &&& root::<T>(2 * l, a * q, inv) == part
                &&& root::<T>(2 * l, a * (l + q), inv) == part
            } else {
                &&& root::<T>(2 * l, a * q, inv) == part.times(w)
                &&& root::<T>(2 * l, a * (l + q), inv) == part.times(w).negated()
            }
        }),
{
    lemma_complex_ring::<T>();
    let b = a / 2;
    let one = Cplx::<T>::unit();
    let part = root::<T>(l, b * q, inv);
    let w = twiddle::<T>(l, q, inv);
    // The shifted part.
    assert(b * (l + q) == b * l + b * q) by (nonlinear_arith);
    lemma_root_sum::<T>(l, b * l, b * q, inv);
    lemma_root_turns::<T>(l, b, inv);
    lemma_ring(part, one, one);
    assert(root::<T>(l, b * (l + q), inv) == part);
    lemma_twiddle_double::<T>(l, a * q, inv);
    lemma_twiddle_double::<T>(l, a * (l + q), inv);
    if a % 2 == 0 {
        assert(a * q == 2 * (b * q)) by (nonlinear_arith)
            requires
                a == 2 * b,
        ;
        assert(a * (l + q) == 2 * (b * (l + q))) by (nonlinear_arith)
            requires
                a == 2 * b,
        ;
    } else {
        assert(a * q == 2 * (b * q) + q) by (nonlinear_arith)
            requires
                a == 2 * b + 1,
        ;
        assert(a * (l + q) == 2 * (b * (l + q)) + (l + q)) by (nonlinear_arith)
            requires
                a == 2 * b + 1,
        ;
        lemma_twiddle_sum::<T>(l, 2 * (b * q), q, inv);
        lemma_twiddle_sum::<T>(l, 2 * (b * (l + q)), l + q, inv);
        lemma_twiddle_sum::<T>(l, l, q, inv);
        lemma_twiddle_half::<T>(l, inv);
        lemma_times_negative(one, w);
        lemma_ring(w, one, one);
        lemma_times_negative(part, w);
    }
}

/// The first `m` entries, with zeros for the others.
spec fn prefix<T: Real>(s: Seq<Cplx<T>>, m: nat) -> Seq<Cplx<T>> {
    Seq::new(
        s.len(),
        |j: int|
            if j < m {
                s[j]
            } else {
                Cplx::<T>::nought()
            },
    )
}

/// One more entry is a multiple of a unit vector more.
proof fn lemma_prefix_grows<T: Real>(s: Seq<Cplx<T>>, m: nat)
    requires
        exact::<T>(),
        m < s.len(),
    ensures
        prefix(s, m + 1) == plus_multiple(
            prefix(s, m),
            s[m as int],
            unit_vector::<T>(s.len(), m as int),
        ),
{
    lemma_complex_ring::<T>();
    let (one, zero) = (Cplx::<T>::unit(), Cplx::<T>::nought());
    let c = s[m as int];
    lemma_times_nought(c);
    lemma_ring(c, one, one);
    assert forall|j: int| 0 <= j < s.len() implies prefix(s, m + 1)[j] == plus_multiple(
        prefix(s, m),
        c,
        unit_vector::<T>(s.len(), m as int),
    )[j] by {
        lemma_ring(prefix(s, m)[j], zero, zero);
    }
    assert(prefix(s, m + 1) =~= plus_multiple(
        prefix(s, m),
        c,
        unit_vector::<T>(s.len(), m as int),
    ));
}

/// Term `a` of the discrete Fourier transform of `s` at `p`.
pub open spec fn dft_term<T: Real>(s: Seq<Cplx<T>>, p: int, inv: bool) -> spec_fn(int) -> Cplx<T> {
    |a: int| s[a].times(root::<T>(s.len(), (a * p) as nat, inv))
}

proof fn lemma_prefix_transform<T: Real>(s: Seq<Cplx<T>>, inv: bool, m: nat)
    requires
        exact::<T>(),
        is_power_of_two(s.len()),
        m <= s.len(),
    ensures
        transform(prefix(s, m), inv).len() == s.len(),
        forall|p: int|
            0 <= p < s.len() ==> #[trigger] transform(prefix(s, m), inv)[p] == total(
                m,
                dft_term(s, p, inv),
            ),
    decreases m,
{
    lemma_complex_ring::<T>();
    let n = s.len();
    lemma_transform_length(prefix(s, m), inv);
    if m == 0 {
        assert(prefix(s, 0) =~= zero_vector::<Cplx<T>>(n));
        lemma_transform_nought::<T>(n, inv);
    } else {
        let less = (m - 1) as nat;
        lemma_prefix_transform(s, inv, less);
        lemma_prefix_grows(s, less);
        let delta = unit_vector::<T>(n, less as int);
        lemma_transform_linear(prefix(s, less), s[less as int], delta, inv);
        lemma_transform_unit::<T>(n, less, inv);
        assert forall|p: int| 0 <= p < n implies #[trigger] transform(prefix(s, m), inv)[p]
            == total(m, dft_term(s, p, inv)) by {
            assert(transform(prefix(s, less), inv)[p] == total(less, dft_term(s, p, inv)));
            assert(dft_term(s, p, inv)(m - 1) == s[less as int].times(
                wave::<T>(n, less, inv)[p],
            ));
        }
    }
}

/// In exact arithmetic the transform is the discrete Fourier transform
/// `Σ s[a]·exp(∓2πi·a·p/n)`.
pub proof fn lemma_transform_is_dft<T: Real>(s: Seq<Cplx<T>>, inv: bool, p: int)
    requires
        exact::<T>(),
        is_power_of_two(s.len()),
        0 <= p < s.len(),
    ensures
        transform(s, inv)[p] == total(
            s.len(),
            |a: int| s[a].times(root::<T>(s.len(), (a * p) as nat, inv)),
        ),
{
    lemma_prefix_transform(s, inv, s.len());
    assert(prefix(s, s.len()) =~= s);
    assert(transform(prefix(s, s.len()), inv)[p] == total(s.len(), dft_term(s, p, inv)));
    lemma_total_same(
        s.len(),
        dft_term(s, p, inv),
        |a: int| s[a].times(root::<T>(s.len(), (a * p) as nat, inv)),
    );
}

/// The number `n` as a sum of ones.
pub open spec fn count<E: Field>(n: nat) -> E {
    total(n, |i: int| E::unit())
}

/// The inverse transform of a wave: all of it at one position.
proof fn lemma_transform_wave<T: Real>(n: nat, a: nat)
    requires
        exact::<T>(),
        is_power_of_two(n),
        a < n,
    ensures
        transform(wave::<T>(n, a, false), true).len() == n,
        forall|q: int|
            0 <= q < n ==> #[trigger] transform(wave::<T>(n, a, false), true)[q] == (if q == a {
                count::<Cplx<T>>(n)
            } else {
                Cplx::<T>::nought()
            }),
    decreases n,
{
    lemma_complex_ring::<T>();
    let (one, zero) = (Cplx::<T>::unit(), Cplx::<T>::nought());
    let s = wave::<T>(n, a, false);
    lemma_transform_length(s, true);
    if n == 1 {
        lemma_twiddle_start::<T>(1, false);
        lemma_ring(one, zero, zero);
        reveal_with_fuel(total, 2);
        assert(s[0] == one);
    } else {
        let l = n / 2;
        let b = a % l;
        let factor = twiddle::<T>(l, a, false);
        let half = wave::<T>(l, b, false);
        lemma_transform_wave::<T>(l, b);
        let e = transform(half, true);
        assert forall|j: int| 0 <= j < l implies evens(s)[j] == half[j] && odds(s)[j]
            == zero.plus(factor.times(half[j])) by {
            assert(a * (2 * j) == 2 * (a * j)) by (nonlinear_arith);
            assert(a * (2 * j + 1) == 2 * (a * j) + a) by (nonlinear_arith);
            lemma_twiddle_double::<T>(l, 2 * (a * j) as nat, false);
            lemma_twiddle_double::<T>(l, (2 * (a * j) + a) as nat, false);
            lemma_twiddle_sum::<T>(l, (2 * (a * j)) as nat, a, false);
            lemma_root_remainder::<T>(l, a, j as nat, false);
            lemma_ring(factor, half[j], zero);
            lemma_ring(factor.times(half[j]), zero, zero);
        }
        let zeros = zero_vector::<Cplx<T>>(l);
        assert(evens(s) =~= half);
        assert(odds(s) =~= plus_multiple(zeros, factor, half));
        lemma_transform_linear(zeros, factor, half, true);
        lemma_transform_nought::<T>(l, true);
        let o = transform(odds(s), true);
        crate::exact::lemma_total_parts(l, l, |i: int| one);
        lemma_total_same(l, |i: int| (|k: int| one)(l + i), |i: int| one);
        assert(n == l + l);
        assert(count::<Cplx<T>>(n) == count::<Cplx<T>>(l).plus(count::<Cplx<T>>(l)));
        assert forall|q: int| 0 <= q < n implies #[trigger] transform(s, true)[q] == (if q == a {
            count::<Cplx<T>>(n)
        } else {
            zero
        }) by {
            let r = if q < l {
                q
            } else {
                q - l
            } as nat;
            let w = twiddle::<T>(l, r, true);
            let (er, or) = (e[r as int], o[r as int]);
            assert(or == zero.plus(factor.times(er)));
            lemma_ring(factor.times(er), zero, zero);
            if r != b {
                assert(er == zero);
                lemma_times_nought(factor);
                lemma_times_nought(w);
                lemma_ring(zero, zero, zero);
                lemma_negative(zero, zero);
                if q == a {
                    if a < l {
                        vstd::arithmetic::div_mod::lemma_small_mod(a, l);
                    } else {
                        vstd::arithmetic::div_mod::lemma_mod_add_multiples_vanish(
                            a - l,
                            l as int,
                        );
                        vstd::arithmetic::div_mod::lemma_small_mod((a - l) as nat, l);
                    }
                }
            } else {
                lemma_ring(w, factor, er);
                lemma_twiddle_opposite::<T>(l, r);
                lemma_ring(er, er, er);
                if a < l {
                    vstd::arithmetic::div_mod::lemma_small_mod(a, l);
                    assert(w.times(or) == er);
                } else {
                    vstd::arithmetic::div_mod::lemma_mod_add_multiples_vanish(a - l, l as int);
                    vstd::arithmetic::div_mod::lemma_small_mod((a - l) as nat, l);
                    assert(a == l + r);
                    lemma_twiddle_sum::<T>(l, l, r, false);
                    lemma_twiddle_half::<T>(l, false);
                    let f = twiddle::<T>(l, r, false);
                    lemma_times_negative(one, f);
                    lemma_ring(f, one, one);
                    assert(factor == f.negated());
                    lemma_times_negative(w, f);
                    lemma_times_negative(one, er);
                    assert(w.times(or) == er.negated());
                    lemma_times_negative(er, er);
                }
            }
        }
    }
}

/// In exact arithmetic the inverse transform undoes the forward one, up to the factor `n`.
pub proof fn lemma_transform_roundtrip<T: Real>(s: Seq<Cplx<T>>)
    requires
        exact::<T>(),
        is_power_of_two(s.len()),
    ensures
        transform(transform(s, false), true) == Seq::new(
            s.len(),
            |q: int| s[q].times(count::<Cplx<T>>(s.len())),
        ),
{
    let n = s.len();
    lemma_prefix_roundtrip(s, n);
    assert(prefix(s, n) =~= s);
    assert(transform(transform(s, false), true) =~= Seq::new(
        n,
        |q: int| s[q].times(count::<Cplx<T>>(n)),
    ));
}

proof fn lemma_prefix_roundtrip<T: Real>(s: Seq<Cplx<T>>, m: nat)
    requires
        exact::<T>(),
        is_power_of_two(s.len()),
        m <= s.len(),
    ensures
        transform(transform(prefix(s, m), false), true).len() == s.len(),
        forall|q: int|
            0 <= q < s.len() ==> #[trigger] transform(transform(prefix(s, m), false), true)[q]
                == prefix(s, m)[q].times(count::<Cplx<T>>(s.len())),
    decreases m,
{
    lemma_complex_ring::<T>();
    let n = s.len();
    let zero = Cplx::<T>::nought();
    let full = count::<Cplx<T>>(n);
    lemma_transform_length(prefix(s, m), false);
    lemma_transform_length(transform(prefix(s, m), false), true);
    lemma_times_nought(full);
    if m == 0 {
        assert(prefix(s, 0) =~= zero_vector::<Cplx<T>>(n));
        lemma_transform_nought::<T>(n, false);
        lemma_transform_nought::<T>(n, true);
    } else {
        let less = (m - 1) as nat;
        let c = s[less as int];
        let delta = unit_vector::<T>(n, less as int);
        lemma_prefix_roundtrip(s, less);
        lemma_prefix_grows(s, less);
        lemma_transform_linear(prefix(s, less), c, delta, false);
        lemma_transform_unit::<T>(n, less, false);
        let wave_less = wave::<T>(n, less, false);
        lemma_transform_length(prefix(s, less), false);
        lemma_transform_linear(transform(prefix(s, less), false), c, wave_less, true);
        lemma_transform_wave::<T>(n, less);
        lemma_times_nought(c);
        assert forall|q: int| 0 <= q < n implies #[trigger] transform(
            transform(prefix(s, m), false),
            true,
        )[q] == prefix(s, m)[q].times(full) by {
            let before = transform(transform(prefix(s, less), false), true)[q];
            assert(before == prefix(s, less)[q].times(full));
            assert(transform(wave_less, true)[q] == (if q == less {
                full
            } else {
                zero
            }));
            lemma_ring(before, zero, zero);
            lemma_ring(c.times(full), zero, zero);
        }
    }
}

/// The roots of unity, by their angles: `exp(−2πi·m/n)` for the forward transform and its conjugate
/// for the inverse one.
pub proof fn lemma_root_angles<T: Real>(n: nat, m: nat)
    requires
        exact::<T>(),
    ensures
        ({
            let turn = T::half_turn().plus(T::half_turn());
            let angle = turn.over(T::whole(n)).times(T::whole(m));
            n >= 1 ==> {
                &&& root::<T>(n, m, false) == (Cplx {
                    re: angle.cosine(),
                    im: angle.sine().negated(),
                })
                &&& root::<T>(n, m, true) == root::<T>(n, m, false).conjugate()
            }
        }),
{
    if n >= 1 {
        let pi = T::half_turn();
        let (wn, wm) = (T::whole(n), T::whole(m));
        lemma_whole_sum::<T>(m, m);
        assert(2 * m == m + m);
        // (π/n)·(m + m) = ((π + π)/n)·m
        let part = pi.over(wn);
        assert(counts(pi, n));
        assert(counts(part.plus(part), n));
        lemma_ring(wn, part, part);
        lemma_ring(part.plus(part), wn, wn);
        lemma_ring(part, wn, wn);
        assert(part.plus(part).times(wn) == pi.plus(pi));
        assert(pi.plus(pi).over(wn) == part.plus(part));
        lemma_ring(part, wm, wm);
        lemma_ring(wm, part, part);
        lemma_ring(part.plus(part), wm, wm);
        let sine = pi.plus(pi).over(wn).times(wm).sine();
        lemma_times_negative(sine, sine);
    }
}

/// In exact arithmetic the transform is the discrete Fourier transform, with the sign of the
/// exponent written out: entry `p` of the forward one is `Σ s[a]·exp(−2πi·a·p/n)`, and of the
/// inverse one `Σ s[a]·exp(2πi·a·p/n)`.
pub proof fn lemma_transform_signs<T: Real>(s: Seq<Cplx<T>>, inv: bool, p: int)
    requires
        exact::<T>(),
        is_power_of_two(s.len()),
        0 <= p < s.len(),
    ensures
        ({
            let turn = T::half_turn().plus(T::half_turn());
            let angle = |a: int| turn.over(T::whole(s.len())).times(T::whole((a * p) as nat));
            transform(s, inv)[p] == total(
                s.len(),
                |a: int|
                    s[a].times(
                        Cplx {
                            re: angle(a).cosine(),
                            im: if inv {
                                angle(a).sine()
                            } else {
                                angle(a).sine().negated()
                            },
                        },
                    ),
            )
        }),
{
    lemma_transform_is_dft(s, inv, p);
    let turn = T::half_turn().plus(T::half_turn());
    let angle = |a: int| turn.over(T::whole(s.len())).times(T::whole((a * p) as nat));
    let given = |a: int| s[a].times(root::<T>(s.len(), (a * p) as nat, inv));
    let wanted = |a: int|
        s[a].times(
            Cplx {
                re: angle(a).cosine(),
                im: if inv {
                    angle(a).sine()
                } else {
                    angle(a).sine().negated()
                },
            },
        );
    assert forall|a: int| 0 <= a < s.len() implies #[trigger] given(a) == wanted(a) by {
        lemma_root_angles::<T>(s.len(), (a * p) as nat);
        lemma_times_negative(angle(a).sine(), angle(a).sine());
    }
    lemma_total_same(s.len(), given, wanted);
}

} // verus!
