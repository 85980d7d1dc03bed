//! Exact arithmetic: what holds of sums and products where nothing is rounded.
//!
//! The contracts of this crate hold for every number type. The statements that say what an
//! algorithm is for, such as that one transform undoes another, hold of numbers that obey the
//! laws of algebra, and those laws are stated here.
use crate::scalar::Field;
use vstd::prelude::*;

verus! {

/// The laws of a commutative ring, for three numbers.
pub open spec fn ring_laws<E: Field>(a: E, b: E, c: E) -> bool {
    &&& a.plus(b) == b.plus(a)
    &&& a.plus(b).plus(c) == a.plus(b.plus(c))
    &&& a.plus(E::nought()) == a
    &&& a.plus(a.negated()) == E::nought()
    &&& a.minus(b) == a.plus(b.negated())
    &&& a.times(b) == b.times(a)
    &&& a.times(b).times(c) == a.times(b.times(c))
    &&& a.times(E::unit()) == a
    &&& a.times(b.plus(c)) == a.times(b).plus(a.times(c))
}

/// Addition and multiplication obey the laws of a commutative ring.
pub open spec fn is_ring<E: Field>() -> bool {
    forall|a: E, b: E, c: E| #[trigger] ring_laws(a, b, c)
}

/// The laws and their mirror images, for three numbers.
pub proof fn lemma_ring<E: Field>(a: E, b: E, c: E)
    requires
        is_ring::<E>(),
    ensures
        a.plus(b) == b.plus(a),
        a.plus(b).plus(c) == a.plus(b.plus(c)),
        a.plus(E::nought()) == a,
        E::nought().plus(a) == a,
        a.plus(a.negated()) == E::nought(),
        a.minus(b) == a.plus(b.negated()),
        a.times(b) == b.times(a),
        a.times(b).times(c) == a.times(b.times(c)),
        a.times(E::unit()) == a,
        E::unit().times(a) == a,
        a.times(b.plus(c)) == a.times(b).plus(a.times(c)),
{
    assert(ring_laws(a, b, c));
    assert(ring_laws(a, E::nought(), E::nought()));
    assert(ring_laws(a, E::unit(), E::unit()));
}

/// What is added can be taken away.
pub proof fn lemma_cancel<E: Field>(a: E, b: E, c: E)
    requires
        is_ring::<E>(),
        a.plus(c) == b.plus(c),
    ensures
        a == b,
{
    lemma_ring(a, c, c.negated());
    lemma_ring(b, c, c.negated());
    lemma_ring(c, c, c);
}

/// A product with zero is zero.
pub proof fn lemma_times_nought<E: Field>(a: E)
    requires
        is_ring::<E>(),
    ensures
        a.times(E::nought()) == E::nought(),
        E::nought().times(a) == E::nought(),
{
    let zero = E::nought();
    lemma_ring(zero, zero, zero);
    lemma_ring(a, zero, zero);
    lemma_ring(a.times(zero), zero, zero);
    lemma_cancel(a.times(zero), zero, a.times(zero));
}

/// The negative is the only number that adds up to zero.
pub proof fn lemma_negative<E: Field>(a: E, b: E)
    requires
        is_ring::<E>(),
        a.plus(b) == E::nought(),
    ensures
        b == a.negated(),
{
    lemma_ring(a, b, b);
    lemma_ring(a, a.negated(), b);
    lemma_cancel(b, a.negated(), a);
}

/// Signs and products.
pub proof fn lemma_times_negative<E: Field>(a: E, b: E)
    requires
        is_ring::<E>(),
    ensures
        a.times(b.negated()) == a.times(b).negated(),
        a.negated().times(b) == a.times(b).negated(),
        a.negated().negated() == a,
        a.minus(b.negated()) == a.plus(b),
{
    lemma_ring(b, b, b);
    lemma_ring(a, b, b.negated());
    lemma_times_nought(a);
    lemma_negative(a.times(b), a.times(b.negated()));
    lemma_ring(a, a, a);
    lemma_ring(b, a, a.negated());
    lemma_times_nought(b);
    lemma_negative(b.times(a), b.times(a.negated()));
    lemma_ring(a.negated(), b, b);
    lemma_ring(a.negated(), a, a);
    lemma_negative(a.negated(), a);
    lemma_ring(b.negated(), b, b);
    lemma_negative(b.negated(), b);
    lemma_ring(a, b.negated(), b);
}

/// Two sums, added up.
pub proof fn lemma_plus_plus<E: Field>(a: E, b: E, c: E, d: E)
    requires
        is_ring::<E>(),
    ensures
        a.plus(b).plus(c.plus(d)) == a.plus(c).plus(b.plus(d)),
{
    lemma_ring(a, b, c.plus(d));
    lemma_ring(b, c, d);
    lemma_ring(c, b, d);
    lemma_ring(a, c, b.plus(d));
}

/// The negative of a sum.
pub proof fn lemma_negative_sum<E: Field>(a: E, b: E)
    requires
        is_ring::<E>(),
    ensures
        a.plus(b).negated() == a.negated().plus(b.negated()),
{
    lemma_plus_plus(a, b, a.negated(), b.negated());
    lemma_ring(a, b, b);
    lemma_ring(b, b, b);
    lemma_ring(E::nought(), b, b);
    lemma_negative(a.plus(b), a.negated().plus(b.negated()));
}

/// The sum of `f(0)` to `f(n − 1)`, added up from the left.
pub open spec fn total<E: Field>(n: nat, f: spec_fn(int) -> E) -> E
    decreases n,
{
    if n == 0 {
        E::nought()
    } else {
        total((n - 1) as nat, f).plus(f(n - 1))
    }
}

/// Sums with the same terms are the same.
pub proof fn lemma_total_same<E: Field>(n: nat, f: spec_fn(int) -> E, g: spec_fn(int) -> E)
    requires
        forall|i: int| 0 <= i < n ==> #[trigger] f(i) == g(i),
    ensures
        total(n, f) == total(n, g),
    decreases n,
{
    if n > 0 {
        lemma_total_same((n - 1) as nat, f, g);
        assert(f(n - 1) == g(n - 1));
    }
}

/// A sum of zeros is zero.
pub proof fn lemma_total_nought<E: Field>(n: nat, f: spec_fn(int) -> E)
    requires
        is_ring::<E>(),
        forall|i: int| 0 <= i < n ==> #[trigger] f(i) == E::nought(),
    ensures
        total(n, f) == E::nought(),
    decreases n,
{
    if n > 0 {
        lemma_total_nought((n - 1) as nat, f);
        assert(f(n - 1) == E::nought());
        lemma_ring(E::nought(), E::nought(), E::nought());
    }
}

/// Two neighbouring terms can be replaced by two others with the same sum.
pub proof fn lemma_total_pair<E: Field>(
    n: nat,
    f: spec_fn(int) -> E,
    g: spec_fn(int) -> E,
    m: int,
)
    requires
        is_ring::<E>(),
        0 <= m,
        m + 1 < n,
        forall|i: int| 0 <= i < n && i != m && i != m + 1 ==> #[trigger] f(i) == g(i),
        f(m).plus(f(m + 1)) == g(m).plus(g(m + 1)),
    ensures
        total(n, f) == total(n, g),
    decreases n,
{
    if m + 1 == n - 1 {
        let less = (n - 2) as nat;
        lemma_total_same(less, f, g);
        lemma_ring(total(less, f), f(m), f(m + 1));
        lemma_ring(total(less, g), g(m), g(m + 1));
        assert(total((n - 1) as nat, f) == total(less, f).plus(f(m)));
        assert(total((n - 1) as nat, g) == total(less, g).plus(g(m)));
    } else {
        lemma_total_pair((n - 1) as nat, f, g, m);
        assert(f(n - 1) == g(n - 1));
    }
}

/// Sums add up term by term.
pub proof fn lemma_total_plus<E: Field>(n: nat, f: spec_fn(int) -> E, g: spec_fn(int) -> E)
    requires
        is_ring::<E>(),
    ensures
        total(n, |i: int| f(i).plus(g(i))) == total(n, f).plus(total(n, g)),
    decreases n,
{
    let h = |i: int| f(i).plus(g(i));
    if n == 0 {
        lemma_ring(E::nought(), E::nought(), E::nought());
    } else {
        let m = (n - 1) as nat;
        lemma_total_plus(m, f, g);
        lemma_plus_plus(total(m, f), total(m, g), f(n - 1), g(n - 1));
        assert(h(n - 1) == f(n - 1).plus(g(n - 1)));
    }
}

/// A common factor can be taken out of a sum.
pub proof fn lemma_total_times<E: Field>(n: nat, c: E, f: spec_fn(int) -> E)
    requires
        is_ring::<E>(),
    ensures
        total(n, |i: int| c.times(f(i))) == c.times(total(n, f)),
        total(n, |i: int| f(i).times(c)) == total(n, f).times(c),
    decreases n,
{
    let h = |i: int| c.times(f(i));
    let k = |i: int| f(i).times(c);
    lemma_times_nought(c);
    if n > 0 {
        let m = (n - 1) as nat;
        lemma_total_times(m, c, f);
        lemma_ring(c, total(m, f), f(n - 1));
        lemma_ring(c, total(n, f), c);
        lemma_ring(c, f(n - 1), c);
        assert(h(n - 1) == c.times(f(n - 1)));
        assert(k(n - 1) == f(n - 1).times(c));
    }
}

/// The order of two summations does not matter.
pub proof fn lemma_total_swap<E: Field>(n: nat, m: nat, f: spec_fn(int, int) -> E)
    requires
        is_ring::<E>(),
    ensures
        total(n, |i: int| total(m, |j: int| f(i, j))) == total(
            m,
            |j: int| total(n, |i: int| f(i, j)),
        ),
    decreases n,
{
    let rows = |i: int| total(m, |j: int| f(i, j));
    let cols = |j: int| total(n, |i: int| f(i, j));
    if n == 0 {
        lemma_total_nought(m, cols);
    } else {
        let less = (n - 1) as nat;
        let before = |j: int| total(less, |i: int| f(i, j));
        let last = |j: int| f(n - 1, j);
        lemma_total_swap(less, m, f);
        lemma_total_plus(m, before, last);
        let both = |j: int| before(j).plus(last(j));
        assert forall|j: int| 0 <= j < m implies #[trigger] cols(j) == both(j) by {
            let column = |i: int| f(i, j);
            assert(total(n, column) == total(less, column).plus(column(n - 1)));
        }
        lemma_total_same(m, cols, both);
        assert(rows(n - 1) == total(m, last)) by {
            lemma_total_same(m, |j: int| f(n - 1, j), last);
        }
    }
}

/// A sum in two parts.
pub proof fn lemma_total_parts<E: Field>(n: nat, m: nat, f: spec_fn(int) -> E)
    requires
        is_ring::<E>(),
    ensures
        total(n + m, f) == total(n, f).plus(total(m, |i: int| f(n + i))),
    decreases m,
{
    let rest = |i: int| f(n + i);
    if m == 0 {
        lemma_ring(total(n, f), E::nought(), E::nought());
    } else {
        let less = (m - 1) as nat;
        lemma_total_parts(n, less, f);
        lemma_ring(total(n, f), total(less, rest), rest(m - 1));
        assert(rest(m - 1) == f(n + m - 1));
    }
}

/// Terms that are zero can be left out at the end.
pub proof fn lemma_total_front<E: Field>(n: nat, m: nat, f: spec_fn(int) -> E)
    requires
        is_ring::<E>(),
        forall|i: int| n <= i < n + m ==> #[trigger] f(i) == E::nought(),
    ensures
        total(n + m, f) == total(n, f),
{
    let rest = |i: int| f(n + i);
    lemma_total_parts(n, m, f);
    assert forall|i: int| 0 <= i < m implies #[trigger] rest(i) == E::nought() by {
        assert(f(n + i) == E::nought());
    }
    lemma_total_nought(m, rest);
    lemma_ring(total(n, f), E::nought(), E::nought());
}

/// Terms can be taken in cyclic order from any one on.
pub proof fn lemma_total_rotated<E: Field>(n: nat, b: nat, g: spec_fn(int) -> E)
    requires
        is_ring::<E>(),
        b < n,
    ensures
        total(n, |a: int| g((a + b) % n as int)) == total(n, g),
{
    let h = |a: int| g((a + b) % n as int);
    let front = (n - b) as nat;
    lemma_total_parts(front, b, h);
    lemma_total_parts(b, front, g);
    let tail = |i: int| h(front + i);
    let shifted = |i: int| g(b + i);
    assert forall|i: int| 0 <= i < b implies #[trigger] tail(i) == g(i) by {
        assert((n + i) % n as int == i) by {
            vstd::arithmetic::div_mod::lemma_mod_add_multiples_vanish(i, n as int);
            vstd::arithmetic::div_mod::lemma_small_mod(i as nat, n);
        }
    }
    assert forall|i: int| 0 <= i < front implies #[trigger] h(i) == shifted(i) by {
        vstd::arithmetic::div_mod::lemma_small_mod((i + b) as nat, n);
    }
    lemma_total_same(b, tail, g);
    lemma_total_same(front, h, shifted);
    lemma_ring(total(front, h), total(b, g), E::nought());
}

/// The sum over a matrix, row after row.
pub proof fn lemma_total_rows<E: Field>(h: nat, w: nat, f: spec_fn(int) -> E)
    requires
        is_ring::<E>(),
    ensures
        total(h * w, f) == total(h, |y: int| total(w, |x: int| f(y * w + x))),
    decreases h,
{
    let rows = |y: int| total(w, |x: int| f(y * w + x));
    if h > 0 {
        let less = (h - 1) as nat;
        lemma_total_rows(less, w, f);
        assert(h * w == less * w + w) by (nonlinear_arith)
            requires
                h == less + 1,
        ;
        lemma_total_parts(less * w, w, f);
        let last = |x: int| f((h - 1) * w + x);
        lemma_total_same(w, |i: int| f((less * w) as int + i), last);
    } else {
        assert(h * w == 0) by (nonlinear_arith)
            requires
                h == 0,
        ;
    }
}

} // verus!
