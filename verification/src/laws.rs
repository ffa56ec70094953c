//! What follows from the contracts of the cache for whole sequences of
//! calls, stated over its abstract state.

use crate::model::CacheView;
use vstd::prelude::*;

verus! {

/// The state after the pairs of `items` have been pushed one after another.
pub open spec fn push_all<K, V>(view: CacheView<K, V>, n: nat, items: Seq<(K, V)>) -> CacheView<
    K,
    V,
>
    decreases items.len(),
{
    if items.len() == 0 {
        view
    } else {
        push_all(view, n, items.drop_last()).push(n, items.last().0, items.last().1)
    }
}

/// The state after `count` calls of `pop`.
pub open spec fn pop_all<K, V>(view: CacheView<K, V>, count: nat) -> CacheView<K, V>
    decreases count,
{
    if count == 0 {
        view
    } else {
        pop_all(view, (count - 1) as nat).pop()
    }
}

/// No key occurs twice among `items`.
pub open spec fn distinct_items<K, V>(items: Seq<(K, V)>) -> bool {
    forall|i: int, j: int|
        0 <= i < j < items.len() ==> (#[trigger] items[i]).0 != (#[trigger] items[j]).0
}

/// How many of `len` pushed pairs a cache of the given capacity has put out.
pub open spec fn overflow(len: nat, capacity: nat) -> int {
    if len > capacity {
        len - capacity
    } else {
        0
    }
}

/// A cache that holds a stretch of `items` from `d` on, the last pair left
/// out, does not hold the key of that last pair.
proof fn lemma_fresh_key<K, V>(view: CacheView<K, V>, items: Seq<(K, V)>, d: int)
    requires
        distinct_items(items),
        items.len() > 0,
        0 <= d < items.len(),
        view.entries == items.drop_last().skip(d),
    ensures
        !view.contains_key(items.last().0),
{
    if view.contains_key(items.last().0) {
        let i = view.rank(items.last().0);
        assert(view.entries[i] == items[i + d]);
        assert(items[i + d].0 != items[items.len() - 1].0);
    }
}

/// Writing a live key moves its pair to the end and brings no key in twice;
/// the key is then found there, with the value written.
proof fn lemma_moved_to_end<K, V>(view: CacheView<K, V>, key: K, value: V)
    requires
        view.distinct(),
        view.contains_key(key),
    ensures
        view.put(key, value).distinct(),
        view.put(key, value).len() == view.len(),
        view.put(key, value).entries.last() == (key, value),
        view.put(key, value).contains_key(key),
        view.put(key, value).rank(key) == view.len() - 1,
        view.len() > 1 ==> view.put(key, value).entries[0].0 != key,
{
    let r = view.rank(key);
    let after = view.put(key, value);
    let last = view.len() - 1;
    assert forall|i: int, j: int| 0 <= i < j < after.entries.len() implies (
    #[trigger] after.entries[i]).0 != (#[trigger] after.entries[j]).0 by {
        let i0 = if i < r { i } else { i + 1 };
        assert(after.entries[i] == view.entries[i0]);
        if j < last {
            let j0 = if j < r { j } else { j + 1 };
            assert(after.entries[j] == view.entries[j0]);
            assert(view.entries[i0].0 != view.entries[j0].0);
        } else {
            if i0 < r {
                assert(view.entries[i0].0 != view.entries[r].0);
            } else {
                assert(view.entries[r].0 != view.entries[i0].0);
            }
        }
    }
    assert(after.entries[last].0 == key);
    let q = after.rank(key);
    if q < last {
        assert(after.entries[q].0 != after.entries[last].0);
    }
    if view.len() > 1 {
        assert(after.entries[0].0 != after.entries[last].0);
    }
}

/// Pushes of distinct keys into an empty cache leave the pairs in the order
/// in which they were pushed, the oldest put out where the capacity was
/// exceeded.
pub proof fn law_insertion_order<K, V>(capacity: nat, n: nat, items: Seq<(K, V)>)
    requires
        capacity >= 1,
        distinct_items(items),
    ensures
        push_all(CacheView::empty(capacity), n, items).entries == items.skip(
            overflow(items.len(), capacity),
        ),
        push_all(CacheView::empty(capacity), n, items).capacity == capacity,
    decreases items.len(),
{
    let start = CacheView::<K, V>::empty(capacity);
    if items.len() == 0 {
        assert(start.entries =~= items.skip(0));
    } else {
        let front = items.drop_last();
        let pair = items.last();
        law_insertion_order(capacity, n, front);
        let mid = push_all(start, n, front);
        let d = overflow(front.len(), capacity);
        assert(mid.entries == front.skip(d));
        lemma_fresh_key(mid, items, d);
        let after = mid.push(n, pair.0, pair.1);
        assert(after.entries =~= items.skip(overflow(items.len(), capacity)));
    }
}

/// Popping returns the pairs of a cache from the least recently used on:
/// after `count` pops the rest is left, in its order.
pub proof fn law_pop_order<K, V>(view: CacheView<K, V>, count: nat)
    requires
        count <= view.len(),
    ensures
        pop_all(view, count).entries == view.entries.skip(count as int),
        pop_all(view, count).capacity == view.capacity,
        pop_all(view, count).spilled == view.spilled,
    decreases count,
{
    if count == 0 {
        assert(view.entries =~= view.entries.skip(0));
    } else {
        law_pop_order(view, (count - 1) as nat);
        let mid = pop_all(view, (count - 1) as nat);
        assert(mid.pop().entries =~= view.entries.skip(count as int));
    }
}

/// Pairs pushed with distinct keys and without a read in between come back
/// from `pop` in the order in which they went in: the pop after `k` others
/// returns the pair pushed as number `k` of those that the cache kept.
pub proof fn law_lru_order<K, V>(capacity: nat, n: nat, items: Seq<(K, V)>, k: nat)
    requires
        capacity >= 1,
        distinct_items(items),
        k < items.len() - overflow(items.len(), capacity),
    ensures
        pop_all(push_all(CacheView::empty(capacity), n, items), k).len() > 0,
        pop_all(push_all(CacheView::empty(capacity), n, items), k).entries[0] == items[overflow(
            items.len(),
            capacity,
        ) + k],
{
    law_insertion_order(capacity, n, items);
    law_pop_order(push_all(CacheView::empty(capacity), n, items), k);
}

/// A read that promotes makes its key the most recently used: with another
/// key live, the next `pop` returns that other key's pair.
pub proof fn law_promotion<K, V>(view: CacheView<K, V>, key: K)
    requires
        view.distinct(),
        view.contains_key(key),
    ensures
        view.touch(key).len() == view.len(),
        view.touch(key).entries.last().0 == key,
        view.touch(key).lookup(key) == view.lookup(key),
        view.len() > 1 ==> view.touch(key).entries[0].0 != key,
        view.touch(key).distinct(),
{
    lemma_moved_to_end(view, key, view.entries[view.rank(key)].1);
}

/// Pushing a live key keeps the size and gives the key its new value, as
/// the most recently used entry.
pub proof fn law_update_in_place<K, V>(view: CacheView<K, V>, n: nat, key: K, value: V)
    requires
        view.distinct(),
        view.contains_key(key),
    ensures
        view.push(n, key, value).len() == view.len(),
        view.push(n, key, value).lookup(key) == Some(value),
        view.push(n, key, value).entries.last() == (key, value),
        view.push(n, key, value).capacity == view.capacity,
        view.push(n, key, value).spilled == view.spilled,
        view.push(n, key, value).distinct(),
{
    lemma_moved_to_end(view, key, value);
}

/// With a capacity above the inline size `n`, a cache filled from empty
/// with distinct keys stays in scan mode up to `n` keys and is in indexed
/// mode from key `n + 1` on.
pub proof fn law_spill_threshold<K, V>(capacity: nat, n: nat, items: Seq<(K, V)>)
    requires
        capacity > n,
        distinct_items(items),
    ensures
        push_all(CacheView::empty(capacity), n, items).spilled == (items.len() > n),
    decreases items.len(),
{
    let start = CacheView::<K, V>::empty(capacity);
    if items.len() > 0 {
        let front = items.drop_last();
        let pair = items.last();
        law_spill_threshold(capacity, n, front);
        law_insertion_order(capacity, n, front);
        let mid = push_all(start, n, front);
        let d = overflow(front.len(), capacity);
        lemma_fresh_key(mid, items, d);
    }
}

/// Once in indexed mode a cache stays there through pushes, promoting
/// reads, pops and removals, down to no entry at all; only `clear` and an
/// `unspill` that is possible bring it back to scan mode.
pub proof fn law_spill_persists<K, V>(view: CacheView<K, V>, n: nat, key: K, value: V)
    requires
        view.spilled,
    ensures
        view.push(n, key, value).spilled,
        view.touch(key).spilled,
        view.pop().spilled,
        view.remove(key).spilled,
        view.set_capacity(n).spilled,
        !view.clear().spilled,
        view.unspill(n).spilled == (view.len() > n),
{
}

/// An `unspill` that is possible changes the lookup mode and nothing else:
/// the pairs and their recency order stay.
pub proof fn law_unspill_round_trip<K, V>(view: CacheView<K, V>, n: nat)
    requires
        view.spilled,
        view.len() <= n,
    ensures
        view.can_unspill(n),
        !view.unspill(n).spilled,
        view.unspill(n).entries == view.entries,
        view.unspill(n).capacity == view.capacity,
{
}

} // verus!
