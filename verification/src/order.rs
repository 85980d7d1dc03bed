//! Sorting indices by the numbers they stand for.
use crate::scalar::Real;
use vstd::prelude::*;

verus! {

/// Any two of the numbers can be compared, and the comparisons are consistent.
pub open spec fn totally_ordered<T: Real>(keys: Seq<T>) -> bool {
    &&& forall|i: int, j: int|
        0 <= i < keys.len() && 0 <= j < keys.len() ==> (#[trigger] keys[i].at_most(keys[j])
            || keys[j].at_most(keys[i]))
    &&& forall|i: int| 0 <= i < keys.len() ==> !(#[trigger] keys[i]).less(keys[i])
    &&& forall|i: int, j: int, l: int|
        #![trigger keys[i].less(keys[j]), keys[j].less(keys[l])]
        0 <= i < keys.len() && 0 <= j < keys.len() && 0 <= l < keys.len() ==> {
            &&& keys[i].less(keys[j]) && keys[j].less(keys[l]) ==> keys[i].less(keys[l])
            &&& !keys[i].less(keys[j]) && !keys[j].less(keys[l]) ==> !keys[i].less(keys[l])
        }
}

/// Index `i` stands before index `j` when sorted: its key comes first, or the keys tie
/// and it is the smaller index.
pub open spec fn stands_before<T: Real>(keys: Seq<T>, descending: bool, i: int, j: int) -> bool {
    if descending {
        keys[j].less(keys[i]) || (!keys[i].less(keys[j]) && i < j)
    } else {
        keys[i].less(keys[j]) || (!keys[j].less(keys[i]) && i < j)
    }
}

/// `order` lists different indices of `keys`, each before those that come later.
pub open spec fn in_order<T: Real>(keys: Seq<T>, descending: bool, order: Seq<usize>) -> bool {
    &&& forall|a: int| 0 <= a < order.len() ==> (#[trigger] order[a]) < keys.len()
    &&& forall|a: int, b: int|
        0 <= a < b < order.len() ==> stands_before(
            keys,
            descending,
            #[trigger] order[a] as int,
            #[trigger] order[b] as int,
        )
    &&& forall|a: int, b: int|
        0 <= a < b < order.len() ==> #[trigger] order[a] != #[trigger] order[b]
}

/// `order` is the stable sorting of the indices of `keys`.
pub open spec fn sorts<T: Real>(keys: Seq<T>, descending: bool, order: Seq<usize>) -> bool {
    &&& order.len() == keys.len()
    &&& in_order(keys, descending, order)
}

/// The stable sorting of the indices of `keys`.
pub open spec fn sorting<T: Real>(keys: Seq<T>, descending: bool) -> Seq<usize> {
    choose|order: Seq<usize>| sorts(keys, descending, order)
}

/// The entries of `items` at the listed positions.
pub open spec fn gather<A>(items: Seq<A>, rows: Seq<usize>) -> Seq<A> {
    Seq::new(rows.len(), |i: int| items[rows[i] as int])
}

/// Picking some of the numbers keeps them comparable.
pub proof fn lemma_gathered_stay_ordered<T: Real>(keys: Seq<T>, rows: Seq<usize>)
    requires
        totally_ordered(keys),
        forall|i: int| 0 <= i < rows.len() ==> (#[trigger] rows[i]) < keys.len(),
    ensures
        totally_ordered(gather(keys, rows)),
{
    let picked = gather(keys, rows);
    assert forall|i: int, j: int| 0 <= i < picked.len() && 0 <= j < picked.len() implies (
    #[trigger] picked[i].at_most(picked[j]) || picked[j].at_most(picked[i])) by {
        assert(keys[rows[i] as int].at_most(keys[rows[j] as int]) || keys[rows[j] as int].at_most(
            keys[rows[i] as int],
        ));
    }
    assert forall|i: int| 0 <= i < picked.len() implies !(#[trigger] picked[i]).less(
        picked[i],
    ) by {
        assert(!keys[rows[i] as int].less(keys[rows[i] as int]));
    }
    assert forall|i: int, j: int, l: int|
        #![trigger picked[i].less(picked[j]), picked[j].less(picked[l])]
        0 <= i < picked.len() && 0 <= j < picked.len() && 0 <= l < picked.len() implies {
        &&& picked[i].less(picked[j]) && picked[j].less(picked[l]) ==> picked[i].less(picked[l])
        &&& !picked[i].less(picked[j]) && !picked[j].less(picked[l]) ==> !picked[i].less(picked[l])
    } by {
        let (a, b, c) = (rows[i] as int, rows[j] as int, rows[l] as int);
        assert(keys[a].less(keys[b]) || !keys[a].less(keys[b]));
        assert(keys[b].less(keys[c]) || !keys[b].less(keys[c]));
    }
}

/// Whether the key of `i` comes strictly before that of `j`.
fn key_comes_first<T: Real>(keys: &Vec<T>, descending: bool, i: usize, j: usize) -> (r: bool)
    requires
        i < keys@.len(),
        j < keys@.len(),
    ensures
        r == if descending {
            keys@[j as int].less(keys@[i as int])
        } else {
            keys@[i as int].less(keys@[j as int])
        },
{
    if descending {
        keys[j].lt(keys[i])
    } else {
        keys[i].lt(keys[j])
    }
}

/// Sorts the indices of `keys`, ascending or descending; indices of equal keys keep
/// their order.
pub fn sort_indices<T: Real>(keys: &Vec<T>, descending: bool) -> (order: Vec<usize>)
    requires
        totally_ordered(keys@),
    ensures
        order@ == sorting(keys@, descending),
        sorts(keys@, descending, order@),
{
    let mut order: Vec<usize> = Vec::new();
    let mut i: usize = 0;
    while i < keys.len()
        invariant
            i <= keys@.len(),
            totally_ordered(keys@),
            order@.len() == i,
            in_order(keys@, descending, order@),
            forall|a: int| 0 <= a < order@.len() ==> (#[trigger] order@[a]) < i,
        decreases keys@.len() - i,
    {
        let mut at: usize = order.len();
        while at > 0 && key_comes_first(keys, descending, i, order[at - 1])
            invariant
                at <= order@.len(),
                i < keys@.len(),
                totally_ordered(keys@),
                in_order(keys@, descending, order@),
                forall|a: int| 0 <= a < order@.len() ==> (#[trigger] order@[a]) < i,
                forall|a: int|
                    at <= a < order@.len() ==> stands_before(
                        keys@,
                        descending,
                        i as int,
                        #[trigger] order@[a] as int,
                    ),
            decreases at,
        {
            at = at - 1;
        }
        proof {
            if at > 0 {
                assert(stands_before(keys@, descending, order@[at - 1] as int, i as int));
            }
            lemma_inserted(keys@, descending, order@, at as int, i);
        }
        order.insert(at, i);
        i = i + 1;
    }
    proof {
        lemma_sorting_unique(keys@, descending, order@, sorting(keys@, descending));
    }
    order
}

/// An index with a larger number than all that are listed can be put where its key belongs.
proof fn lemma_inserted<T: Real>(
    keys: Seq<T>,
    descending: bool,
    order: Seq<usize>,
    at: int,
    i: usize,
)
    requires
        totally_ordered(keys),
        in_order(keys, descending, order),
        i < keys.len(),
        forall|a: int| 0 <= a < order.len() ==> (#[trigger] order[a]) < i,
        0 <= at <= order.len(),
        at > 0 ==> stands_before(keys, descending, order[at - 1] as int, i as int),
        forall|a: int|
            at <= a < order.len() ==> stands_before(
                keys,
                descending,
                i as int,
                #[trigger] order[a] as int,
            ),
    ensures
        in_order(keys, descending, order.insert(at, i)),
        forall|a: int|
            0 <= a < order.insert(at, i).len() ==> (#[trigger] order.insert(at, i)[a]) < i + 1,
{
    let after = order.insert(at, i);
    assert forall|a: int| 0 <= a < at implies stands_before(
        keys,
        descending,
        #[trigger] order[a] as int,
        i as int,
    ) by {
        let (p, q, s) = (order[a] as int, order[at - 1] as int, i as int);
        assert(p == q || stands_before(keys, descending, p, q));
        lemma_stands_before_transitive(keys, descending, p, q, s);
    }
    assert forall|a: int, b: int| 0 <= a < b < after.len() implies stands_before(
        keys,
        descending,
        #[trigger] after[a] as int,
        #[trigger] after[b] as int,
    ) && after[a] != after[b] by {
        let a0 = if a < at { a } else { a - 1 };
        let b0 = if b < at { b } else { b - 1 };
        if a != at && b != at {
            assert(after[a] == order[a0] && after[b] == order[b0]);
        } else if a == at {
            assert(after[b] == order[b - 1]);
        } else {
            assert(after[a] == order[a]);
        }
    }
    assert forall|a: int| 0 <= a < after.len() implies (#[trigger] after[a]) < i + 1 by {
        if a != at {
            let a0 = if a < at { a } else { a - 1 };
            assert(after[a] == order[a0]);
        }
    }
}

/// The position at which an index belongs, searched from `at` down.
proof fn lemma_position_of<T: Real>(
    keys: Seq<T>,
    descending: bool,
    order: Seq<usize>,
    i: usize,
    at: int,
) -> (found: int)
    requires
        in_order(keys, descending, order),
        i < keys.len(),
        forall|a: int| 0 <= a < order.len() ==> (#[trigger] order[a]) < i,
        0 <= at <= order.len(),
        forall|a: int|
            at <= a < order.len() ==> stands_before(
                keys,
                descending,
                i as int,
                #[trigger] order[a] as int,
            ),
    ensures
        0 <= found <= order.len(),
        found > 0 ==> stands_before(keys, descending, order[found - 1] as int, i as int),
        forall|a: int|
            found <= a < order.len() ==> stands_before(
                keys,
                descending,
                i as int,
                #[trigger] order[a] as int,
            ),
    decreases at,
{
    if at > 0 && !stands_before(keys, descending, order[at - 1] as int, i as int) {
        lemma_position_of(keys, descending, order, i, at - 1)
    } else {
        at
    }
}

/// The first `i` indices can be sorted.
proof fn lemma_sorted_prefix<T: Real>(keys: Seq<T>, descending: bool, i: nat) -> (order: Seq<usize>)
    requires
        totally_ordered(keys),
        i <= keys.len() <= usize::MAX,
    ensures
        order.len() == i,
        in_order(keys, descending, order),
        forall|a: int| 0 <= a < order.len() ==> (#[trigger] order[a]) < i,
    decreases i,
{
    if i == 0 {
        Seq::empty()
    } else {
        let last = (i - 1) as usize;
        let before = lemma_sorted_prefix(keys, descending, (i - 1) as nat);
        let at = lemma_position_of(keys, descending, before, last, before.len() as int);
        lemma_inserted(keys, descending, before, at, last);
        before.insert(at, last)
    }
}

/// Numbers that can be compared can be sorted.
pub proof fn lemma_sorting_exists<T: Real>(keys: Seq<T>, descending: bool)
    requires
        totally_ordered(keys),
        keys.len() <= usize::MAX,
    ensures
        sorts(keys, descending, sorting(keys, descending)),
{
    let order = lemma_sorted_prefix(keys, descending, keys.len());
    assert(sorts(keys, descending, order));
}

/// A sorting is stable: no key stands before one that belongs before it, and of two keys that tie
/// the one that stood first stays first.
pub proof fn lemma_sorting_stable<T: Real>(
    keys: Seq<T>,
    descending: bool,
    order: Seq<usize>,
    a: int,
    b: int,
)
    requires
        totally_ordered(keys),
        sorts(keys, descending, order),
        0 <= a < b < keys.len(),
    ensures
        ({
            let (u, v) = (keys[order[a] as int], keys[order[b] as int]);
            &&& descending ==> !u.less(v)
            &&& !descending ==> !v.less(u)
            &&& !u.less(v) && !v.less(u) ==> order[a] < order[b]
        }),
{
    let (i, j) = (order[a] as int, order[b] as int);
    assert(stands_before(keys, descending, i, j));
    if keys[i].less(keys[j]) && keys[j].less(keys[i]) {
        assert(keys[i].less(keys[i]));
    }
}

/// A list of `n` different indices below `n` holds every one of them.
pub proof fn lemma_all_listed(order: Seq<usize>, n: nat, q: usize)
    requires
        order.len() == n,
        q < n,
        forall|a: int| 0 <= a < order.len() ==> (#[trigger] order[a]) < n,
        forall|a: int, b: int|
            0 <= a < b < order.len() ==> #[trigger] order[a] != #[trigger] order[b],
    ensures
        order.contains(q),
{
    let ints = order.map_values(|v: usize| v as int);
    assert(ints.no_duplicates()) by {
        assert forall|a: int, b: int| 0 <= a < ints.len() && 0 <= b < ints.len() && a != b implies
            ints[a] != ints[b] by {
            if a < b {
                assert(order[a] != order[b]);
            } else {
                assert(order[b] != order[a]);
            }
        }
    }
    ints.unique_seq_to_set();
    vstd::set_lib::lemma_int_range(0, n as int);
    let all = vstd::set_lib::set_int_range(0, n as int);
    assert(ints.to_set().subset_of(all)) by {
        assert forall|v: int| ints.to_set().contains(v) implies all.contains(v) by {
            let a = choose|a: int| 0 <= a < ints.len() && ints[a] == v;
            assert(order[a] < n);
        }
    }
    vstd::set_lib::lemma_subset_equality(ints.to_set(), all);
    assert(all.contains(q as int));
    assert(ints.contains(q as int));
    let a = choose|a: int| 0 <= a < ints.len() && ints[a] == q as int;
    assert(order[a] == q);
}

/// There is one stable sorting only.
pub proof fn lemma_sorting_unique<T: Real>(
    keys: Seq<T>,
    descending: bool,
    first: Seq<usize>,
    second: Seq<usize>,
)
    requires
        totally_ordered(keys),
        sorts(keys, descending, first),
        sorts(keys, descending, second),
    ensures
        first == second,
{
    if first != second {
        assert(exists|a: int| 0 <= a < keys.len() && first[a] != second[a]) by {
            if forall|a: int| 0 <= a < keys.len() ==> first[a] == second[a] {
                assert(first =~= second);
            }
        }
        let some = choose|a: int| 0 <= a < keys.len() && first[a] != second[a];
        let a = lemma_first_difference(first, second, some);
        lemma_all_listed(first, keys.len(), second[a]);
        lemma_all_listed(second, keys.len(), first[a]);
        let b = choose|b: int| 0 <= b < first.len() && first[b] == second[a];
        let c = choose|c: int| 0 <= c < second.len() && second[c] == first[a];
        assert(b > a) by {
            if b < a {
                assert(first[b] == second[b]);
            }
        }
        assert(c > a) by {
            if c < a {
                assert(first[c] == second[c]);
            }
        }
        let (p, q) = (first[a] as int, second[a] as int);
        assert(stands_before(keys, descending, p, q));
        assert(stands_before(keys, descending, q, p));
        lemma_stands_before_transitive(keys, descending, p, q, p);
        assert(!keys[p].less(keys[p]));
    }
}

/// The smallest position at which two lists differ.
proof fn lemma_first_difference(first: Seq<usize>, second: Seq<usize>, some: int) -> (a: int)
    requires
        first.len() == second.len(),
        0 <= some < first.len(),
        first[some] != second[some],
    ensures
        0 <= a < first.len(),
        first[a] != second[a],
        forall|b: int| 0 <= b < a ==> first[b] == second[b],
    decreases some,
{
    if forall|b: int| 0 <= b < some ==> first[b] == second[b] {
        some
    } else {
        let earlier = choose|b: int| 0 <= b < some && first[b] != second[b];
        lemma_first_difference(first, second, earlier)
    }
}

/// Standing before is transitive.
proof fn lemma_stands_before_transitive<T: Real>(
    keys: Seq<T>,
    descending: bool,
    i: int,
    j: int,
    l: int,
)
    requires
        totally_ordered(keys),
        0 <= i < keys.len(),
        0 <= j < keys.len(),
        0 <= l < keys.len(),
        i == j || stands_before(keys, descending, i, j),
        stands_before(keys, descending, j, l),
    ensures
        stands_before(keys, descending, i, l),
{
    let (a, b, c) = (keys[i], keys[j], keys[l]);
    assert(a.less(b) || !a.less(b));
    assert(b.less(a) || !b.less(a));
    assert(b.less(c) || !b.less(c));
    assert(c.less(b) || !c.less(b));
    assert(a.less(c) || !a.less(c));
    assert(c.less(a) || !c.less(a));
    assert(!a.less(a));
    assert(!b.less(b));
    assert(!c.less(c));
}

} // verus!
