//! Stable sorting by a key.

use vstd::prelude::*;
use vstd::seq_lib::{to_multiset_build, to_multiset_contains};

verus! {

/// `items` with `x` put in behind the last item whose key is not above its own.
pub open spec fn insert_by(items: Seq<usize>, key: spec_fn(usize) -> int, x: usize) -> Seq<usize>
    decreases items.len(),
{
    if items.len() == 0 || key(items.last()) <= key(x) {
        items.push(x)
    } else {
        insert_by(items.drop_last(), key, x).push(items.last())
    }
}

/// `items` in the order of their keys. Items with the same key keep their order.
pub open spec fn sort_by(items: Seq<usize>, key: spec_fn(usize) -> int) -> Seq<usize>
    decreases items.len(),
{
    if items.len() == 0 {
        items
    } else {
        insert_by(sort_by(items.drop_last(), key), key, items.last())
    }
}

/// The keys of `items` do not fall.
pub open spec fn sorted_by(items: Seq<usize>, key: spec_fn(usize) -> int) -> bool {
    forall|i: int, j: int|
        0 <= i <= j < items.len() ==> key(#[trigger] items[i]) <= key(#[trigger] items[j])
}

proof fn lemma_insert_at(items: Seq<usize>, key: spec_fn(usize) -> int, x: usize, at: int)
    requires
        0 <= at <= items.len(),
        at > 0 ==> key(items[at - 1]) <= key(x),
        forall|i: int| at <= i < items.len() ==> key(#[trigger] items[i]) > key(x),
    ensures
        insert_by(items, key, x) == items.insert(at, x),
    decreases items.len(),
{
    if at == items.len() {
        assert(items.insert(at, x) =~= items.push(x));
    } else {
        assert(key(items[items.len() - 1]) > key(x));
        lemma_insert_at(items.drop_last(), key, x, at);
        assert(items.drop_last().insert(at, x).push(items.last()) =~= items.insert(at, x));
    }
}

proof fn lemma_insert_by(items: Seq<usize>, key: spec_fn(usize) -> int, x: usize)
    requires
        sorted_by(items, key),
    ensures
        sorted_by(insert_by(items, key, x), key),
        insert_by(items, key, x).to_multiset() == items.to_multiset().insert(x),
        insert_by(items, key, x).len() == items.len() + 1,
        forall|i: int|
            0 <= i < items.len() + 1 ==> key(#[trigger] insert_by(items, key, x)[i]) <= if key(
                x,
            ) > key(items.last()) || items.len() == 0 {
                key(x)
            } else {
                key(items.last())
            },
    decreases items.len(),
{
    broadcast use to_multiset_build;

    if items.len() == 0 || key(items.last()) <= key(x) {
    } else {
        let less = items.drop_last();
        assert(less.push(items.last()) =~= items);
        lemma_insert_by(less, key, x);
        let all = insert_by(items, key, x);
        if less.len() > 0 {
            assert(key(less.last()) <= key(items.last())) by {
                assert(items[less.len() - 1] == less.last());
            }
        }
        assert(all.to_multiset() =~= items.to_multiset().insert(x));
    }
}

/// Sorting only moves items, and orders them.
pub proof fn lemma_sort_by(items: Seq<usize>, key: spec_fn(usize) -> int)
    ensures
        sorted_by(sort_by(items, key), key),
        sort_by(items, key).to_multiset() == items.to_multiset(),
        sort_by(items, key).len() == items.len(),
        forall|c: usize| #[trigger] sort_by(items, key).contains(c) <==> items.contains(c),
        items.no_duplicates() ==> sort_by(items, key).no_duplicates(),
    decreases items.len(),
{
    broadcast use to_multiset_build;
    broadcast use to_multiset_contains;

    if items.len() > 0 {
        let less = items.drop_last();
        assert(less.push(items.last()) =~= items);
        lemma_sort_by(less, key);
        lemma_insert_by(sort_by(less, key), key, items.last());
    }
    let all = sort_by(items, key);
    assert forall|c: usize| #[trigger] all.contains(c) <==> items.contains(c) by {
        assert(all.to_multiset().count(c) == items.to_multiset().count(c));
    }
    if items.no_duplicates() {
        items.lemma_multiset_has_no_duplicates();
        all.lemma_multiset_has_no_duplicates_conv();
    }
}

/// Where an item is put in.
proof fn lemma_insert_place(items: Seq<usize>, key: spec_fn(usize) -> int, x: usize) -> (at: int)
    requires
        sorted_by(items, key),
    ensures
        0 <= at <= items.len(),
        insert_by(items, key, x) == items.insert(at, x),
        forall|i: int| 0 <= i < at ==> key(#[trigger] items[i]) <= key(x),
        forall|i: int| at <= i < items.len() ==> key(#[trigger] items[i]) > key(x),
    decreases items.len(),
{
    if items.len() == 0 || key(items.last()) <= key(x) {
        let at = items.len() as int;
        assert(items.insert(at, x) =~= items.push(x));
        at
    } else {
        let less = items.drop_last();
        let at = lemma_insert_place(less, key, x);
        assert(less.insert(at, x).push(items.last()) =~= items.insert(at, x));
        assert forall|i: int| 0 <= i < at implies key(#[trigger] items[i]) <= key(x) by {
            assert(less[i] == items[i]);
        }
        assert forall|i: int| at <= i < items.len() implies key(#[trigger] items[i]) > key(x) by {
            if i < less.len() {
                assert(less[i] == items[i]);
            }
        }
        at
    }
}

/// Sorting keeps items with the same key in their order: the one that comes first
/// among the items comes first in the result.
pub proof fn law_sorting_keeps_ties(
    items: Seq<usize>,
    key: spec_fn(usize) -> int,
    a: int,
    b: int,
) -> (places: (int, int))
    requires
        0 <= a < b < items.len(),
        key(items[a]) == key(items[b]),
    ensures
        0 <= places.0 < places.1 < sort_by(items, key).len(),
        sort_by(items, key)[places.0] == items[a],
        sort_by(items, key)[places.1] == items[b],
    decreases items.len(),
{
    let less = items.drop_last();
    let x = items.last();
    let before = sort_by(less, key);
    lemma_sort_by(less, key);
    let at = lemma_insert_place(before, key, x);
    let now = before.insert(at, x);
    if b < less.len() {
        let (p, q) = law_sorting_keeps_ties(less, key, a, b);
        let to_p = if p < at {
            p
        } else {
            p + 1
        };
        let to_q = if q < at {
            q
        } else {
            q + 1
        };
        assert(now[to_p] == before[p]);
        assert(now[to_q] == before[q]);
        (to_p, to_q)
    } else {
        assert(less[a] == items[a]);
        assert(less.contains(items[a]));
        assert(before.contains(items[a]));
        let p = choose|p: int| 0 <= p < before.len() && before[p] == items[a];
        assert(p < at) by {
            if p >= at {
                assert(key(before[p]) > key(x));
            }
        }
        assert(now[p] == before[p]);
        assert(now[at] == x);
        (p, at)
    }
}

/// Sorting by a list of keys: nothing is lost and nothing is added, and no item comes
/// before one whose entry in the list is lower.
pub proof fn law_sorting_orders_by_the_keys(items: Seq<usize>, keys: Seq<i128>, a: int, b: int)
    requires
        0 <= a < b < items.len(),
    ensures
        ({
            let sorted = sort_by(items, key_in(keys));
            &&& sorted.len() == items.len()
            &&& sorted.to_multiset() == items.to_multiset()
            &&& keys[sorted[a] as int] <= keys[sorted[b] as int]
        }),
{
    lemma_sort_by(items, key_in(keys));
    let key = key_in(keys);
    let sorted = sort_by(items, key);
    assert(key(sorted[a]) <= key(sorted[b]));
}

/// The key that `keys` gives to an item.
pub open spec fn key_in(keys: Seq<i128>) -> spec_fn(usize) -> int {
    |c: usize| keys[c as int] as int
}

/// Sorts `items` by their entries in `keys`. Items with the same key keep their
/// order.
pub fn sort_by_key(items: &Vec<usize>, keys: &Vec<i128>) -> (out: Vec<usize>)
    requires
        forall|i: int| 0 <= i < items@.len() ==> (#[trigger] items@[i]) < keys@.len(),
    ensures
        out@ == sort_by(items@, key_in(keys@)),
{
    let ghost key = key_in(keys@);
    let mut out: Vec<usize> = Vec::new();
    assert(items@.take(0) =~= Seq::<usize>::empty());
    let mut i: usize = 0;
    while i < items.len()
        invariant
            i <= items@.len(),
            key == key_in(keys@),
            forall|i: int| 0 <= i < items@.len() ==> (#[trigger] items@[i]) < keys@.len(),
            forall|j: int| 0 <= j < out@.len() ==> (#[trigger] out@[j]) < keys@.len(),
            out@.len() == i,
            sorted_by(out@, key),
            out@ == sort_by(items@.take(i as int), key),
        decreases items@.len() - i,
    {
        let x = items[i];
        let mut at: usize = out.len();
        while at > 0 && keys[out[at - 1]] > keys[x]
            invariant
                at <= out@.len(),
                x < keys@.len(),
                key == key_in(keys@),
                forall|j: int| 0 <= j < out@.len() ==> (#[trigger] out@[j]) < keys@.len(),
                forall|j: int| at <= j < out@.len() ==> key(#[trigger] out@[j]) > key(x),
            decreases at,
        {
            at -= 1;
        }
        proof {
            lemma_insert_at(out@, key, x, at as int);
            lemma_insert_by(out@, key, x);
            assert(items@.take(i + 1).drop_last() =~= items@.take(i as int));
        }
        out.insert(at, x);
        i += 1;
    }
    assert(items@.take(items@.len() as int) =~= items@);
    out
}

} // verus!
