//! The radix-2 fast Fourier transform.
use crate::complex::Cplx;
use crate::scalar::{Field, Real};
use vstd::prelude::*;

verus! {

/// `n` is a power of two.
pub open spec fn is_power_of_two(n: nat) -> bool
    decreases n,
{
    n == 1 || (n >= 2 && n % 2 == 0 && is_power_of_two(n / 2))
}

/// The root of unity `exp(∓iπk/l)`, with the upper sign for the forward transform.
pub open spec fn twiddle<T: Real>(l: nat, k: nat, inv: bool) -> Cplx<T> {
    let angle = T::half_turn().over(T::whole(l)).times(T::whole(k));
    Cplx {
        re: angle.cosine(),
        im: if inv {
            angle.sine()
        } else {
            angle.sine().negated()
        },
    }
}

/// The entries at even positions.
pub open spec fn evens<A>(s: Seq<A>) -> Seq<A> {
    Seq::new(s.len() / 2, |i: int| s[2 * i])
}

/// The entries at odd positions.
pub open spec fn odds<A>(s: Seq<A>) -> Seq<A> {
    Seq::new(s.len() / 2, |i: int| s[2 * i + 1])
}

/// The transform of a sequence whose even and odd entries have the transforms `e` and `o`:
/// `e + w·o`, followed by `e − w·o`.
pub open spec fn merged<T: Real>(e: Seq<Cplx<T>>, o: Seq<Cplx<T>>, inv: bool) -> Seq<Cplx<T>> {
    let l = e.len();
    Seq::new(
        2 * l,
        |p: int|
            if p < l {
                e[p].plus(twiddle::<T>(l, p as nat, inv).times(o[p]))
            } else {
                e[p - l].minus(twiddle::<T>(l, (p - l) as nat, inv).times(o[p - l]))
            },
    )
}

/// The discrete Fourier transform of a sequence whose length is a power of two, by recursive
/// decimation in time. Neither direction is scaled.
pub open spec fn transform<T: Real>(s: Seq<Cplx<T>>, inv: bool) -> Seq<Cplx<T>>
    decreases s.len(),
{
    if s.len() <= 1 {
        s
    } else {
        merged(transform(evens(s), inv), transform(odds(s), inv), inv)
    }
}

/// A transform is as long as the sequence.
pub proof fn lemma_transform_length<T: Real>(s: Seq<Cplx<T>>, inv: bool)
    requires
        s.len() <= 1 || is_power_of_two(s.len()),
    ensures
        transform(s, inv).len() == s.len(),
    decreases s.len(),
{
    if s.len() > 1 {
        lemma_transform_length(evens(s), inv);
        lemma_transform_length(odds(s), inv);
    }
}

/// `p` below `n`, a power of two, with its binary digits in reverse.
pub open spec fn reversed(p: nat, n: nat) -> nat
    decreases n,
{
    if n <= 1 {
        0
    } else if p < n / 2 {
        2 * reversed(p, n / 2)
    } else {
        2 * reversed((p - n / 2) as nat, n / 2) + 1
    }
}

/// The transforms of the interleaved subsequences of length `l`, in the order in which
/// splitting into even and odd entries arrives at them.
pub open spec fn staged<T: Real>(s: Seq<Cplx<T>>, l: nat, inv: bool) -> Seq<Cplx<T>>
    decreases s.len(),
{
    if s.len() <= l || s.len() <= 1 {
        transform(s, inv)
    } else {
        staged(evens(s), l, inv) + staged(odds(s), l, inv)
    }
}

/// Every two neighbouring blocks of length `l`, merged.
pub open spec fn merged_blocks<T: Real>(s: Seq<Cplx<T>>, l: nat, inv: bool) -> Seq<Cplx<T>> {
    Seq::new(
        s.len(),
        |p: int|
            {
                let k = p % (2 * l as int);
                if k < l {
                    s[p].plus(twiddle::<T>(l, k as nat, inv).times(s[p + l]))
                } else {
                    s[p - l].minus(twiddle::<T>(l, (k - l) as nat, inv).times(s[p]))
                }
            },
    )
}

/// A reversed position is a position.
proof fn lemma_reversed_bound(p: nat, n: nat)
    requires
        is_power_of_two(n),
        p < n,
    ensures
        reversed(p, n) < n,
    decreases n,
{
    if n >= 2 {
        if p < n / 2 {
            lemma_reversed_bound(p, n / 2);
        } else {
            lemma_reversed_bound((p - n / 2) as nat, n / 2);
        }
    }
}

/// The lowest digit becomes the highest.
proof fn lemma_reversed_low_digit(q: nat, c: nat, n: nat)
    requires
        is_power_of_two(n),
        n >= 2,
        q < n / 2,
        c <= 1,
    ensures
        reversed(2 * q + c, n) == c * (n / 2) + reversed(q, n / 2),
    decreases n,
{
    let h = n / 2;
    if h == 1 {
        assert(reversed(0, 1) == 0);
        assert(reversed(c, 2) == c);
    } else {
        assert(is_power_of_two(h) && h >= 2);
        assert(c * h == 2 * (c * (h / 2))) by {
            if c == 0 {
            } else {
                assert(c == 1);
            }
        }
        if q < h / 2 {
            lemma_reversed_low_digit(q, c, h);
        } else {
            lemma_reversed_low_digit((q - h / 2) as nat, c, h);
        }
    }
}

/// Reversing twice gives the position back.
proof fn lemma_reversed_twice(p: nat, n: nat)
    requires
        is_power_of_two(n),
        p < n,
    ensures
        reversed(reversed(p, n), n) == p,
        reversed(p, n) < n,
    decreases n,
{
    lemma_reversed_bound(p, n);
    if n >= 2 {
        if p < n / 2 {
            lemma_reversed_twice(p, n / 2);
            lemma_reversed_low_digit(reversed(p, n / 2), 0, n);
        } else {
            let q = (p - n / 2) as nat;
            lemma_reversed_twice(q, n / 2);
            lemma_reversed_low_digit(reversed(q, n / 2), 1, n);
        }
    }
}

/// Splitting down to single entries reverses the digits of every position.
proof fn lemma_staged_start<T: Real>(s: Seq<Cplx<T>>, inv: bool, p: int)
    requires
        is_power_of_two(s.len()),
        0 <= p < s.len(),
    ensures
        staged(s, 1, inv).len() == s.len(),
        staged(s, 1, inv)[p] == s[reversed(p as nat, s.len()) as int],
        reversed(p as nat, s.len()) < s.len(),
    decreases s.len(),
{
    let n = s.len();
    lemma_reversed_bound(p as nat, n);
    if n >= 2 {
        let h = n / 2;
        lemma_staged_start(evens(s), inv, 0);
        lemma_staged_start(odds(s), inv, 0);
        if p < h {
            lemma_staged_start(evens(s), inv, p);
        } else {
            lemma_staged_start(odds(s), inv, p - h);
        }
    }
}

/// Merging the blocks of two sequences that lie side by side.
proof fn lemma_merged_side_by_side<T: Real>(a: Seq<Cplx<T>>, b: Seq<Cplx<T>>, l: nat, inv: bool)
    requires
        l >= 1,
        a.len() % (2 * l) == 0,
        b.len() % (2 * l) == 0,
    ensures
        merged_blocks(a + b, l, inv) == merged_blocks(a, l, inv) + merged_blocks(b, l, inv),
{
    let w = 2 * l as int;
    let left = merged_blocks(a + b, l, inv);
    let right = merged_blocks(a, l, inv) + merged_blocks(b, l, inv);
    assert forall|p: int| 0 <= p < left.len() implies left[p] == right[p] by {
        if p < a.len() {
            if p % w < l {
                lemma_partner_inside(p, a.len() as int, l as int);
            } else {
                vstd::arithmetic::div_mod::lemma_mod_decreases(p as nat, w as nat);
            }
        } else {
            let q = p - a.len();
            vstd::arithmetic::div_mod::lemma_add_mod_noop(a.len() as int, q, w);
            vstd::arithmetic::div_mod::lemma_mod_twice(q, w);
            assert(p % w == q % w);
            if q % w < l {
                lemma_partner_inside(q, b.len() as int, l as int);
            } else {
                vstd::arithmetic::div_mod::lemma_mod_decreases(q as nat, w as nat);
            }
        }
    }
    assert(left =~= right);
}

/// The partner of a position in the first half of a block lies in the same sequence.
proof fn lemma_partner_inside(p: int, n: int, l: int)
    requires
        l >= 1,
        0 <= p < n,
        n % (2 * l) == 0,
        p % (2 * l) < l,
    ensures
        p + l < n,
{
    let w = 2 * l;
    vstd::arithmetic::div_mod::lemma_fundamental_div_mod(p, w);
    vstd::arithmetic::div_mod::lemma_fundamental_div_mod(n, w);
    let (a, b) = (p / w, n / w);
    assert(a < b) by (nonlinear_arith)
        requires
            w > 0,
            p == w * a + p % w,
            n == w * b,
            p < n,
            0 <= p % w,
    ;
    assert(w * (a + 1) <= w * b) by (nonlinear_arith)
        requires
            w > 0,
            a + 1 <= b,
    ;
    assert(w * (a + 1) == w * a + w) by (nonlinear_arith);
}

/// The blocks are as long in total as the sequence.
proof fn lemma_staged_length<T: Real>(s: Seq<Cplx<T>>, l: nat, inv: bool)
    requires
        s.len() <= 1 || is_power_of_two(s.len()),
    ensures
        staged(s, l, inv).len() == s.len(),
    decreases s.len(),
{
    lemma_transform_length(s, inv);
    if s.len() > l && s.len() > 1 {
        lemma_staged_length(evens(s), l, inv);
        lemma_staged_length(odds(s), l, inv);
    }
}

/// A power of two is a multiple of every smaller one, twice over.
pub proof fn lemma_power_multiple(n: nat, l: nat)
    requires
        is_power_of_two(n),
        is_power_of_two(l),
        l < n,
    ensures
        n % (2 * l) == 0,
        2 * l <= n,
    decreases n,
{
    let h = n / 2;
    if l < h {
        lemma_power_multiple(h, l);
        vstd::arithmetic::div_mod::lemma_fundamental_div_mod(h as int, 2 * l as int);
        let t = h as int / (2 * l as int);
        assert(n == (2 * l) * (2 * t)) by (nonlinear_arith)
            requires
                n == 2 * h,
                h == (2 * l) * t,
        ;
        vstd::arithmetic::div_mod::lemma_mod_multiples_basic(2 * t, 2 * l as int);
        vstd::arithmetic::mul::lemma_mul_is_commutative(2 * t, 2 * l as int);
    } else {
        lemma_equal_powers(l, h);
        vstd::arithmetic::div_mod::lemma_mod_self_0(n as int);
    }
}

/// There is no power of two strictly between two consecutive ones.
proof fn lemma_equal_powers(l: nat, h: nat)
    requires
        is_power_of_two(l),
        is_power_of_two(h),
        h <= l < 2 * h,
    ensures
        l == h,
    decreases h,
{
    if h == 1 {
    } else {
        lemma_equal_powers(l / 2, h / 2);
    }
}

/// Merging the blocks of length `l` gives those of length `2l`.
proof fn lemma_stage_step<T: Real>(s: Seq<Cplx<T>>, l: nat, inv: bool)
    requires
        is_power_of_two(s.len()),
        is_power_of_two(l),
        l < s.len(),
    ensures
        merged_blocks(staged(s, l, inv), l, inv) == staged(s, 2 * l, inv),
    decreases s.len(),
{
    let (e, o) = (evens(s), odds(s));
    let h = s.len() / 2;
    lemma_staged_length(e, l, inv);
    lemma_staged_length(o, l, inv);
    lemma_transform_length(e, inv);
    lemma_transform_length(o, inv);
    if l < h {
        lemma_stage_step(e, l, inv);
        lemma_stage_step(o, l, inv);
        lemma_power_multiple(h, l);
        lemma_merged_side_by_side(staged(e, l, inv), staged(o, l, inv), l, inv);
    } else {
        lemma_power_multiple(s.len(), l);
        assert(h == l);
        let whole = staged(s, l, inv);
        assert(whole == transform(e, inv) + transform(o, inv));
        let left = merged_blocks(whole, l, inv);
        let right = merged(transform(e, inv), transform(o, inv), inv);
        assert forall|p: int| 0 <= p < left.len() implies left[p] == right[p] by {
            vstd::arithmetic::div_mod::lemma_small_mod(p as nat, 2 * l);
        }
        assert(left =~= right);
    }
}

/// `p` below `n`, a power of two, with its binary digits in reverse.
fn reverse_digits(p: usize, n: usize) -> (r: usize)
    requires
        is_power_of_two(n as nat),
        p < n,
    ensures
        r == reversed(p as nat, n as nat),
        r < n,
{
    let mut rest = p;
    let mut size = n;
    let mut weight: usize = 1;
    let mut r: usize = 0;
    proof {
        lemma_reversed_bound(p as nat, n as nat);
    }
    assert(weight * size == n) by (nonlinear_arith)
        requires
            weight == 1,
            size == n,
    ;
    assert(weight * reversed(rest as nat, size as nat) == reversed(rest as nat, size as nat))
        by (nonlinear_arith)
        requires
            weight == 1,
    ;
    while size > 1
        invariant
            is_power_of_two(size as nat),
            rest < size,
            weight >= 1,
            weight * size == n,
            r + weight * reversed(rest as nat, size as nat) == reversed(p as nat, n as nat),
            reversed(p as nat, n as nat) < n,
        decreases size,
    {
        let ghost before = reversed(rest as nat, size as nat);
        let half = size / 2;
        let ghost old_weight = weight as int;
        assert((2 * weight) * half == n) by (nonlinear_arith)
            requires
                weight * size == n,
                size == 2 * half,
        ;
        assert(2 * weight <= n) by (nonlinear_arith)
            requires
                (2 * weight) * half == n,
                half >= 1,
                weight >= 1,
        ;
        if rest >= half {
            let ghost tail = reversed((rest - half) as nat, half as nat);
            assert(weight * before == weight + (2 * weight) * tail) by (nonlinear_arith)
                requires
                    before == 2 * tail + 1,
            ;
            assert((2 * weight) * tail >= 0) by (nonlinear_arith)
                requires
                    weight >= 1,
                    tail >= 0,
            ;
            r = r + weight;
            rest = rest - half;
        } else {
            let ghost tail = reversed(rest as nat, half as nat);
            assert(weight * before == (2 * weight) * tail) by (nonlinear_arith)
                requires
                    before == 2 * tail,
            ;
        }
        weight = 2 * weight;
        size = half;
    }
    assert(weight * reversed(rest as nat, size as nat) == 0) by (nonlinear_arith)
        requires
            reversed(rest as nat, size as nat) == 0,
    ;
    r
}

/// Moves every entry to the position with the reversed digits.
fn reverse_positions<T: Real>(buf: &mut Vec<Cplx<T>>, Ghost(inv): Ghost<bool>)
    requires
        is_power_of_two(old(buf)@.len()),
    ensures
        final(buf)@ == staged(old(buf)@, 1, inv),
        final(buf)@.len() == old(buf)@.len(),
{
    let n = buf.len();
    let ghost s = buf@;
    let mut i: usize = 0;
    while i < n
        invariant
            i <= n,
            n == s.len(),
            is_power_of_two(n as nat),
            buf@.len() == n,
            forall|p: int|
                0 <= p < n ==> (#[trigger] buf@[p]) == (if p < i || reversed(p as nat, n as nat)
                    < i {
                    s[reversed(p as nat, n as nat) as int]
                } else {
                    s[p]
                }),
        decreases n - i,
    {
        let j = reverse_digits(i, n);
        let ghost before = buf@;
        proof {
            lemma_reversed_twice(i as nat, n as nat);
        }
        if i < j {
            let (a, b) = (buf[i], buf[j]);
            buf.set(i, b);
            buf.set(j, a);
        }
        proof {
            assert forall|p: int| 0 <= p < n implies (#[trigger] buf@[p]) == (if p < i + 1
                || reversed(p as nat, n as nat) < i + 1 {
                s[reversed(p as nat, n as nat) as int]
            } else {
                s[p]
            }) by {
                lemma_reversed_twice(p as nat, n as nat);
                assert(before[p] == before[p]);
                assert(before[i as int] == before[i as int]);
                assert(before[j as int] == before[j as int]);
            }
        }
        i = i + 1;
    }
    proof {
        assert forall|p: int| 0 <= p < n implies (#[trigger] buf@[p]) == staged(s, 1, inv)[p] by {
            lemma_staged_start(s, inv, p);
        }
        lemma_staged_length(s, 1, inv);
        assert(buf@ =~= staged(s, 1, inv));
    }
}

/// The root of unity `exp(∓iπk/l)`.
fn root_of_unity<T: Real>(l: usize, k: usize, inv: bool) -> (w: Cplx<T>)
    ensures
        w == twiddle::<T>(l as nat, k as nat, inv),
{
    let angle = T::pi().div(T::from_usize(l)).mul(T::from_usize(k));
    let sn = angle.sin();
    let c = angle.cos();
    if inv {
        Cplx::new(c, sn)
    } else {
        Cplx::new(c, sn.neg())
    }
}

/// Merges every two neighbouring blocks of length `l`.
fn merge_blocks<T: Real>(buf: &mut Vec<Cplx<T>>, l: usize, inv: bool)
    requires
        l >= 1,
        2 * l <= old(buf)@.len(),
        old(buf)@.len() % (2 * l as nat) == 0,
    ensures
        final(buf)@ == merged_blocks(old(buf)@, l as nat, inv),
{
    let n = buf.len();
    let ghost s = buf@;
    let ghost want = merged_blocks(s, l as nat, inv);
    let step = 2 * l;
    let mut i: usize = 0;
    while i < n
        invariant
            i <= n,
            n == s.len(),
            l >= 1,
            step == 2 * l,
            n % step == 0,
            i % step == 0,
            buf@.len() == n,
            want == merged_blocks(s, l as nat, inv),
            forall|p: int| 0 <= p < i ==> buf@[p] == want[p],
            forall|p: int| i <= p < n ==> buf@[p] == s[p],
        decreases n - i,
    {
        proof {
            lemma_partner_inside(i as int, n as int, l as int);
            vstd::arithmetic::div_mod::lemma_fundamental_div_mod(i as int, step as int);
            vstd::arithmetic::div_mod::lemma_fundamental_div_mod(n as int, step as int);
            let (a, b) = (i as int / step as int, n as int / step as int);
            assert(i + step <= n) by (nonlinear_arith)
                requires
                    step > 0,
                    i == step * a,
                    n == step * b,
                    i < n,
            ;
        }
        let mut k: usize = 0;
        while k < l
            invariant
                k <= l,
                i < n,
                i + step <= n,
                n == s.len(),
                step == 2 * l,
                i % step == 0,
                buf@.len() == n,
                want == merged_blocks(s, l as nat, inv),
                forall|p: int|
                    0 <= p < n ==> (#[trigger] buf@[p]) == (if p < i + k || (i + l <= p < i + l
                        + k) {
                        want[p]
                    } else {
                        s[p]
                    }),
            decreases l - k,
        {
            proof {
                lemma_offset(i as int, k as int, step as int);
                lemma_offset(i as int, (k + l) as int, step as int);
            }
            let w = root_of_unity::<T>(l, k, inv);
            let u = buf[i + k];
            let v = w.mul(buf[i + k + l]);
            let ghost before = buf@;
            buf.set(i + k, u.add(v));
            buf.set(i + k + l, u.sub(v));
            proof {
                assert forall|p: int| 0 <= p < n implies (#[trigger] buf@[p]) == (if p < i + k + 1
                    || (i + l <= p < i + l + k + 1) {
                    want[p]
                } else {
                    s[p]
                }) by {
                    assert(before[p] == before[p]);
                }
            }
            k = k + 1;
        }
        proof {
            vstd::arithmetic::div_mod::lemma_mod_add_multiples_vanish(i as int, step as int);
        }
        i = i + step;
    }
    assert(buf@ =~= want);
}

/// The offset inside a block.
proof fn lemma_offset(i: int, k: int, w: int)
    requires
        0 <= k < w,
        0 <= i,
        i % w == 0,
    ensures
        (i + k) % w == k,
{
    vstd::arithmetic::div_mod::lemma_add_mod_noop(i, k, w);
    vstd::arithmetic::div_mod::lemma_small_mod(k as nat, w as nat);
}

/// Replaces `buf` by its discrete Fourier transform, or by the inverse one. Neither is scaled:
/// one after the other multiplies every entry by the length.
pub fn fft<T: Real>(buf: &mut Vec<Cplx<T>>, inv: bool)
    requires
        old(buf)@.len() <= 1 || is_power_of_two(old(buf)@.len()),
    ensures
        final(buf)@ == transform(old(buf)@, inv),
        final(buf)@.len() == old(buf)@.len(),
{
    let n = buf.len();
    if n <= 1 {
        return;
    }
    let ghost s = buf@;
    reverse_positions(buf, Ghost(inv));
    let mut l: usize = 1;
    while l < n
        invariant
            n == s.len(),
            n >= 2,
            is_power_of_two(n as nat),
            is_power_of_two(l as nat),
            l <= n,
            buf@.len() == n,
            buf@ == staged(s, l as nat, inv),
        decreases n - l,
    {
        proof {
            lemma_power_multiple(n as nat, l as nat);
            lemma_stage_step(s, l as nat, inv);
            lemma_staged_length(s, 2 * l as nat, inv);
        }
        merge_blocks(buf, l, inv);
        l = 2 * l;
    }
    proof {
        lemma_transform_length(s, inv);
    }
}

} // verus!
