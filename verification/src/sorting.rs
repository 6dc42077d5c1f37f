//! Putting the revisions of a traversal into chronological order.
//!
//! A revision is sorted by its key: its timestamp and its position in the
//! traversal. No two revisions share a position, so the order is total and
//! the sorted sequence is the only one.

use vstd::prelude::*;
use vstd::seq_lib::lemma_multiset_commutative;

verus! {

/// Whether key `a` comes before key `b` in the index: it has the smaller
/// timestamp, or the same timestamp and the later position in the traversal.
pub open spec fn precedes(a: (i64, usize), b: (i64, usize)) -> bool {
    a.0 < b.0 || (a.0 == b.0 && a.1 > b.1)
}

/// Whether key `a` is `b` or comes before it.
spec fn not_after(a: (i64, usize), b: (i64, usize)) -> bool {
    a == b || precedes(a, b)
}

/// Whether no key of `keys` comes after a later one.
spec fn ascending(keys: Seq<(i64, usize)>) -> bool {
    forall|i: int, j: int| 0 <= i < j < keys.len() ==> not_after(keys[i], keys[j])
}

/// Whether `a` is `b` or comes before it.
fn key_not_after(a: (i64, usize), b: (i64, usize)) -> (r: bool)
    ensures
        r == not_after(a, b),
{
    a.0 < b.0 || (a.0 == b.0 && a.1 >= b.1)
}

/// Merges two ascending runs of keys into one.
fn merge_keys(left: &Vec<(i64, usize)>, right: &Vec<(i64, usize)>) -> (merged: Vec<
    (i64, usize),
>)
    requires
        ascending(left@),
        ascending(right@),
    ensures
        ascending(merged@),
        merged@.to_multiset() == left@.to_multiset().add(right@.to_multiset()),
        merged@.len() == left@.len() + right@.len(),
{
    broadcast use {vstd::seq_lib::group_to_multiset_ensures, vstd::multiset::group_multiset_axioms};

    let mut merged: Vec<(i64, usize)> = Vec::new();
    let mut i: usize = 0;
    let mut j: usize = 0;
    proof {
        assert(left@.take(0) =~= Seq::empty());
        assert(right@.take(0) =~= Seq::empty());
        assert(merged@.to_multiset() =~= left@.take(0).to_multiset().add(
            right@.take(0).to_multiset(),
        ));
    }
    while i < left.len() || j < right.len()
        invariant
            i <= left@.len(),
            j <= right@.len(),
            merged@.len() == i + j,
            ascending(left@),
            ascending(right@),
            ascending(merged@),
            merged@.to_multiset() == left@.take(i as int).to_multiset().add(
                right@.take(j as int).to_multiset(),
            ),
            forall|k: int|
                0 <= k < merged@.len() && i < left@.len() ==> not_after(
                    #[trigger] merged@[k],
                    left@[i as int],
                ),
            forall|k: int|
                0 <= k < merged@.len() && j < right@.len() ==> not_after(
                    #[trigger] merged@[k],
                    right@[j as int],
                ),
        decreases left@.len() - i + right@.len() - j,
    {
        let ghost before = merged@;
        if j >= right.len() || (i < left.len() && key_not_after(left[i], right[j])) {
            let key = left[i];
            merged.push(key);
            proof {
                if i + 1 < left@.len() {
                    assert(not_after(left@[i as int], left@[i + 1]));
                }
                assert(left@.take(i + 1) =~= left@.take(i as int).push(key));
                assert(merged@ =~= before.push(key));
                vstd::seq_lib::to_multiset_build(before, key);
                vstd::seq_lib::to_multiset_build(left@.take(i as int), key);
                assert(merged@.to_multiset() =~= left@.take(i + 1).to_multiset().add(
                    right@.take(j as int).to_multiset(),
                ));
                assert forall|a: int, b: int| 0 <= a < b < merged@.len() implies not_after(
                    merged@[a],
                    merged@[b],
                ) by {
                    if b < before.len() {
                        assert(merged@[a] == before[a] && merged@[b] == before[b]);
                    } else {
                        assert(merged@[a] == before[a]);
                    }
                }
            }
            i = i + 1;
        } else {
            let key = right[j];
            merged.push(key);
            proof {
                if j + 1 < right@.len() {
                    assert(not_after(right@[j as int], right@[j + 1]));
                }
                assert(right@.take(j + 1) =~= right@.take(j as int).push(key));
                assert(merged@ =~= before.push(key));
                vstd::seq_lib::to_multiset_build(before, key);
                vstd::seq_lib::to_multiset_build(right@.take(j as int), key);
                assert(merged@.to_multiset() =~= left@.take(i as int).to_multiset().add(
                    right@.take(j + 1).to_multiset(),
                ));
                assert forall|a: int, b: int| 0 <= a < b < merged@.len() implies not_after(
                    merged@[a],
                    merged@[b],
                ) by {
                    if b < before.len() {
                        assert(merged@[a] == before[a] && merged@[b] == before[b]);
                    } else {
                        assert(merged@[a] == before[a]);
                    }
                }
            }
            j = j + 1;
        }
    }
    proof {
        assert(left@.take(i as int) =~= left@);
        assert(right@.take(j as int) =~= right@);
    }
    merged
}

/// Sorts the keys from `from` up to `upto` into ascending order.
fn sort_keys(keys: &Vec<(i64, usize)>, from: usize, upto: usize) -> (sorted: Vec<(i64, usize)>)
    requires
        from <= upto <= keys@.len(),
    ensures
        ascending(sorted@),
        sorted@.to_multiset() == keys@.subrange(from as int, upto as int).to_multiset(),
        sorted@.len() == upto - from,
    decreases upto - from,
{
    if upto - from <= 1 {
        let mut sorted: Vec<(i64, usize)> = Vec::new();
        if upto - from == 1 {
            sorted.push(keys[from]);
        }
        proof {
            assert(sorted@ =~= keys@.subrange(from as int, upto as int));
        }
        sorted
    } else {
        let middle = from + (upto - from) / 2;
        let left = sort_keys(keys, from, middle);
        let right = sort_keys(keys, middle, upto);
        proof {
            let low = keys@.subrange(from as int, middle as int);
            let high = keys@.subrange(middle as int, upto as int);
            assert(keys@.subrange(from as int, upto as int) =~= low + high);
            lemma_multiset_commutative(low, high);
        }
        merge_keys(&left, &right)
    }
}

/// Whether `order` lists the positions of a traversal in chronological
/// order: each position once, by ascending timestamp, and positions with the
/// same timestamp from the last of the traversal to the first.
pub open spec fn is_chronological(stamps: Seq<i64>, order: Seq<usize>) -> bool {
    &&& order.len() == stamps.len()
    &&& forall|k: int| 0 <= k < order.len() ==> (#[trigger] order[k]) < stamps.len()
    &&& forall|a: int, b: int|
        0 <= a < b < order.len() ==> precedes(
            (stamps[order[a] as int], #[trigger] order[a]),
            (stamps[order[b] as int], #[trigger] order[b]),
        )
}

/// The chronological order of the positions of a traversal with these
/// timestamps.
pub fn chronological_order(stamps: &Vec<i64>) -> (order: Vec<usize>)
    ensures
        is_chronological(stamps@, order@),
{
    broadcast use vstd::seq_lib::group_to_multiset_ensures;

    let count = stamps.len();
    let mut keys: Vec<(i64, usize)> = Vec::new();
    let mut i: usize = 0;
    while i < count
        invariant
            count == stamps@.len(),
            i <= count,
            keys@.len() == i,
            forall|k: int| 0 <= k < i ==> #[trigger] keys@[k] == (stamps@[k], k as usize),
        decreases count - i,
    {
        keys.push((stamps[i], i));
        i = i + 1;
    }
    let sorted = sort_keys(&keys, 0, count);
    proof {
        assert(keys@.subrange(0, count as int) =~= keys@);
        assert(keys@.no_duplicates());
        keys@.lemma_multiset_has_no_duplicates();
        sorted@.lemma_multiset_has_no_duplicates_conv();
        assert forall|k: int| 0 <= k < sorted@.len() implies (#[trigger] sorted@[k]).1 < count
            && sorted@[k].0 == stamps@[sorted@[k].1 as int] by {
            assert(sorted@.contains(sorted@[k]));
            assert(keys@.to_multiset().count(sorted@[k]) > 0);
            assert(keys@.contains(sorted@[k]));
            let at = choose|at: int| 0 <= at < keys@.len() && keys@[at] == sorted@[k];
            assert(keys@[at] == (stamps@[at], at as usize));
        }
    }
    let mut order: Vec<usize> = Vec::new();
    let mut k: usize = 0;
    while k < count
        invariant
            count == stamps@.len(),
            sorted@.len() == count,
            k <= count,
            order@.len() == k,
            forall|n: int| 0 <= n < k ==> #[trigger] order@[n] == sorted@[n].1,
        decreases count - k,
    {
        order.push(sorted[k].1);
        k = k + 1;
    }
    proof {
        assert forall|a: int, b: int| 0 <= a < b < order@.len() implies precedes(
            (stamps@[order@[a] as int], #[trigger] order@[a]),
            (stamps@[order@[b] as int], #[trigger] order@[b]),
        ) by {
            assert(not_after(sorted@[a], sorted@[b]));
            assert(sorted@[a] != sorted@[b]);
            assert(sorted@[a] == (stamps@[order@[a] as int], order@[a]));
            assert(sorted@[b] == (stamps@[order@[b] as int], order@[b]));
        }
    }
    order
}

/// Every position of a traversal stands in a chronological order of it.
pub proof fn lemma_order_holds_every_position(stamps: Seq<i64>, order: Seq<usize>, position: int)
    requires
        is_chronological(stamps, order),
        0 <= position < stamps.len(),
    ensures
        exists|k: int| 0 <= k < order.len() && #[trigger] order[k] == position,
{
    let count = stamps.len() as int;
    let places = Seq::new(order.len(), |k: int| order[k] as int);
    assert forall|i: int, j: int| 0 <= i < places.len() && 0 <= j < places.len() && i != j implies places[i]
        != places[j] by {
        if i < j {
            assert(precedes((stamps[order[i] as int], order[i]), (stamps[order[j] as int], order[j])));
        } else {
            assert(precedes((stamps[order[j] as int], order[j]), (stamps[order[i] as int], order[i])));
        }
    }
    places.unique_seq_to_set();
    vstd::set_lib::lemma_int_range(0, count);
    vstd::seq_lib::seq_to_set_is_finite(places);
    let all = vstd::set_lib::set_int_range(0, count);
    assert forall|place: int| places.to_set().contains(place) implies all.contains(place) by {
        let k = choose|k: int| 0 <= k < places.len() && places[k] == place;
        assert(order[k] < stamps.len());
    }
    vstd::set_lib::lemma_subset_equality(places.to_set(), all);
    assert(all.contains(position));
    assert(places.contains(position));
    let k = choose|k: int| 0 <= k < places.len() && places[k] == position;
    assert(order[k] == position);
}

/// Two chronological orders of one traversal agree on their first `upto`
/// places.
proof fn lemma_orders_agree(stamps: Seq<i64>, one: Seq<usize>, other: Seq<usize>, upto: int)
    requires
        is_chronological(stamps, one),
        is_chronological(stamps, other),
        0 <= upto <= stamps.len(),
    ensures
        forall|k: int| 0 <= k < upto ==> one[k] == other[k],
    decreases upto,
{
    if upto > 0 {
        lemma_orders_agree(stamps, one, other, upto - 1);
        let at = upto - 1;
        let a = one[at];
        let b = other[at];
        if a != b {
            lemma_order_holds_every_position(stamps, other, a as int);
            let q = choose|q: int| 0 <= q < other.len() && #[trigger] other[q] == a;
            if q < at {
                assert(one[q] == other[q]);
                assert(precedes((stamps[one[q] as int], one[q]), (stamps[one[at] as int], one[at])));
            }
            assert(q > at);
            assert(precedes((stamps[other[at] as int], other[at]), (stamps[other[q] as int], other[q])));
            lemma_order_holds_every_position(stamps, one, b as int);
            let p = choose|p: int| 0 <= p < one.len() && #[trigger] one[p] == b;
            if p < at {
                assert(one[p] == other[p]);
                assert(precedes(
                    (stamps[other[p] as int], other[p]),
                    (stamps[other[at] as int], other[at]),
                ));
            }
            assert(p > at);
            assert(precedes((stamps[one[at] as int], one[at]), (stamps[one[p] as int], one[p])));
        }
    }
}

/// A traversal has one chronological order and no other.
pub proof fn lemma_chronological_order_is_unique(stamps: Seq<i64>, one: Seq<usize>, other: Seq<usize>)
    requires
        is_chronological(stamps, one),
        is_chronological(stamps, other),
    ensures
        one == other,
{
    lemma_orders_agree(stamps, one, other, stamps.len() as int);
    assert(one =~= other);
}

} // verus!
