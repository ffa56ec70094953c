//! The recency chain: a doubly-linked list threaded through the store by
//! position, and the steps that keep it intact when entries move.

use vstd::prelude::*;

verus! {

/// Link value that stands for "no neighbour". It is never a store position.
pub const SENTINEL: u16 = 0xFFFF;

/// The largest index value but one; the largest is the sentinel.
pub const MAX_CAPACITY: u16 = 0xFFFE;

/// One live key with its value and its two neighbours in the recency chain.
///
/// `prev` is the position of the next-less-recently-used entry and `next` the
/// position of the next-more-recently-used one; either is [`SENTINEL`] at an
/// end of the chain.
#[derive(Default, Clone)]
pub struct Entry<K, V> {
    pub key: K,
    pub val: V,
    pub next: u16,
    pub prev: u16,
}

/// The position at rank `j` of `order`, or the sentinel outside of it.
pub open spec fn link_at(order: Seq<u16>, j: int) -> u16 {
    if 0 <= j < order.len() {
        order[j]
    } else {
        SENTINEL
    }
}

/// The entry at rank `j` points at its two neighbours in `order`.
pub open spec fn node_linked<K, V>(slots: Seq<Entry<K, V>>, order: Seq<u16>, j: int) -> bool {
    let e = slots[order[j] as int];
    e.prev == link_at(order, j - 1) && e.next == link_at(order, j + 1)
}

/// `order` lists distinct positions of `slots`, least recently used first, and
/// the link fields of the listed entries, `head` and `tail` describe exactly
/// that list. Positions that `order` does not list are unconstrained.
pub open spec fn chained_in<K, V>(
    slots: Seq<Entry<K, V>>,
    order: Seq<u16>,
    head: u16,
    tail: u16,
) -> bool {
    &&& slots.len() <= 0xFFFF
    &&& forall|j: int| 0 <= j < order.len() ==> (#[trigger] order[j] as int) < slots.len()
    &&& forall|i: int, j: int|
        0 <= i < j < order.len() ==> #[trigger] order[i] != #[trigger] order[j]
    &&& forall|j: int| 0 <= j < order.len() ==> #[trigger] node_linked(slots, order, j)
    &&& head == link_at(order, 0)
    &&& tail == link_at(order, order.len() - 1)
}

/// The chain visits every position of the store exactly once.
pub open spec fn chained<K, V>(
    slots: Seq<Entry<K, V>>,
    order: Seq<u16>,
    head: u16,
    tail: u16,
) -> bool {
    chained_in(slots, order, head, tail) && order.len() == slots.len()
}

/// Keys and values by position, without the links.
pub open spec fn payload<K, V>(slots: Seq<Entry<K, V>>) -> Seq<(K, V)> {
    slots.map_values(|e: Entry<K, V>| (e.key, e.val))
}

/// Keys and values in recency order, least recently used first.
pub open spec fn recency<K, V>(slots: Seq<Entry<K, V>>, order: Seq<u16>) -> Seq<(K, V)> {
    Seq::new(order.len(), |j: int| (slots[order[j] as int].key, slots[order[j] as int].val))
}

/// `e` with `x` as its link to the next-more-recently-used entry.
pub open spec fn with_next<K, V>(e: Entry<K, V>, x: u16) -> Entry<K, V> {
    Entry { key: e.key, val: e.val, next: x, prev: e.prev }
}

/// `e` with `x` as its link to the next-less-recently-used entry.
pub open spec fn with_prev<K, V>(e: Entry<K, V>, x: u16) -> Entry<K, V> {
    Entry { key: e.key, val: e.val, next: e.next, prev: x }
}

/// The store after the neighbours `prev` and `next` of one entry have been
/// joined to each other.
pub open spec fn unlinked<K, V>(slots: Seq<Entry<K, V>>, prev: u16, next: u16) -> Seq<Entry<K, V>> {
    let s1 = if prev != SENTINEL {
        slots.update(prev as int, with_next(slots[prev as int], next))
    } else {
        slots
    };
    if next != SENTINEL {
        s1.update(next as int, with_prev(s1[next as int], prev))
    } else {
        s1
    }
}

/// The store after the entry at `p` has been linked behind the entry at `tail`.
pub open spec fn attached<K, V>(slots: Seq<Entry<K, V>>, tail: u16, p: int) -> Seq<Entry<K, V>> {
    let s1 = slots.update(
        p,
        Entry { key: slots[p].key, val: slots[p].val, next: SENTINEL, prev: tail },
    );
    if tail != SENTINEL {
        s1.update(tail as int, with_next(s1[tail as int], p as u16))
    } else {
        s1
    }
}

/// The store after the neighbours of the entry at `p` have been pointed at `p`.
pub open spec fn relinked<K, V>(slots: Seq<Entry<K, V>>, p: int) -> Seq<Entry<K, V>> {
    let prev = slots[p].prev;
    let next = slots[p].next;
    let s1 = if prev != SENTINEL {
        slots.update(prev as int, with_next(slots[prev as int], p as u16))
    } else {
        slots
    };
    if next != SENTINEL {
        s1.update(next as int, with_prev(s1[next as int], p as u16))
    } else {
        s1
    }
}

/// The order after the entry of rank `r` has become the most recently used.
pub open spec fn promoted<T>(order: Seq<T>, r: int) -> Seq<T> {
    order.remove(r).push(order[r])
}

/// The order after the entry of rank `r` has left the store and the entry at
/// the last position has moved into the position that became free.
pub open spec fn compacted(order: Seq<u16>, r: int) -> Seq<u16> {
    let last = order.len() - 1;
    order.remove(r).map_values(
        |p: u16|
            if p == last {
                order[r]
            } else {
                p
            },
    )
}

/// Distinct positions below `order.len()`, as many as there are, are all of them.
pub proof fn lemma_rank_exists(order: Seq<u16>, p: u16)
    requires
        forall|j: int| 0 <= j < order.len() ==> (#[trigger] order[j] as int) < order.len(),
        forall|i: int, j: int|
            0 <= i < j < order.len() ==> #[trigger] order[i] != #[trigger] order[j],
        (p as int) < order.len(),
    ensures
        0 <= order.index_of(p) < order.len(),
        order[order.index_of(p)] == p,
{
    let n = order.len() as int;
    let ints = order.map_values(|x: u16| x as int);
    assert(ints.no_duplicates()) by {
        assert forall|i: int, j: int|
            0 <= i < ints.len() && 0 <= j < ints.len() && i != j implies ints[i] != ints[j] by {
            if i < j {
                assert(order[i] != order[j]);
            } else {
                assert(order[j] != order[i]);
            }
        }
    }
    ints.unique_seq_to_set();
    vstd::seq_lib::seq_to_set_is_finite(ints);
    vstd::set_lib::lemma_int_range(0, n);
    let all = vstd::set_lib::set_int_range(0, n);
    assert(ints.to_set().subset_of(all)) by {
        assert forall|a: int| ints.to_set().contains(a) implies all.contains(a) by {
            let i = choose|i: int| 0 <= i < ints.len() && ints[i] == a;
            assert(order[i] as int == a);
        }
    }
    vstd::set_lib::lemma_subset_equality(ints.to_set(), all);
    assert(all.contains(p as int));
    assert(ints.to_set().contains(p as int));
    let j = choose|j: int| 0 <= j < ints.len() && ints[j] == p as int;
    assert(order[j] == p);
}

/// Taking the entry of rank `r` out of the chain leaves a chain of the others.
pub proof fn lemma_unlink<K, V>(
    slots: Seq<Entry<K, V>>,
    order: Seq<u16>,
    head: u16,
    tail: u16,
    r: int,
)
    requires
        chained_in(slots, order, head, tail),
        0 <= r < order.len(),
    ensures
        ({
            let p = order[r] as int;
            let prev = slots[p].prev;
            let next = slots[p].next;
            let after = unlinked(slots, prev, next);
            &&& prev == link_at(order, r - 1)
            &&& next == link_at(order, r + 1)
            &&& chained_in(
                after,
                order.remove(r),
                if prev == SENTINEL { next } else { head },
                if next == SENTINEL { prev } else { tail },
            )
            &&& after[p] == slots[p]
            &&& after.len() == slots.len()
            &&& payload(after) == payload(slots)
        }),
{
    let p = order[r] as int;
    assert(node_linked(slots, order, r));
    let prev = slots[p].prev;
    let next = slots[p].next;
    let after = unlinked(slots, prev, next);
    let rest = order.remove(r);
    assert(payload(after) =~= payload(slots));
    assert forall|j: int| 0 <= j < rest.len() implies #[trigger] node_linked(after, rest, j) by {
        let j0 = if j < r { j } else { j + 1 };
        assert(rest[j] == order[j0]);
        assert(node_linked(slots, order, j0));
        if j0 >= 1 {
            assert(order[j0 - 1] != order[j0]);
        }
        if j0 + 1 < order.len() {
            assert(order[j0] != order[j0 + 1]);
        }
        if r >= 1 && j0 != r - 1 {
            assert(order[r - 1] != order[j0]);
        }
        if r + 1 < order.len() && j0 != r + 1 {
            assert(order[r + 1] != order[j0]);
        }
    }
    assert forall|i: int, j: int| 0 <= i < j < rest.len() implies #[trigger] rest[i]
        != #[trigger] rest[j] by {
        let i0 = if i < r { i } else { i + 1 };
        let j0 = if j < r { j } else { j + 1 };
        assert(order[i0] != order[j0]);
    }
    assert forall|j: int| 0 <= j < rest.len() implies (#[trigger] rest[j] as int)
        < after.len() by {
        let j0 = if j < r { j } else { j + 1 };
        assert(rest[j] == order[j0]);
    }
    if r >= 1 {
        assert(order[r - 1] != order[r]);
    }
    if r + 1 < order.len() {
        assert(order[r] != order[r + 1]);
    }
}

/// Linking an entry that the chain does not list behind its tail makes it the
/// most recently used.
pub proof fn lemma_attach<K, V>(
    slots: Seq<Entry<K, V>>,
    order: Seq<u16>,
    head: u16,
    tail: u16,
    p: int,
)
    requires
        chained_in(slots, order, head, tail),
        0 <= p < slots.len(),
        forall|j: int| 0 <= j < order.len() ==> #[trigger] order[j] != p,
    ensures
        ({
            let after = attached(slots, tail, p);
            &&& chained_in(after, order.push(p as u16), if tail == SENTINEL { p as u16 } else { head }, p as u16)
            &&& after.len() == slots.len()
            &&& payload(after) == payload(slots)
        }),
{
    let after = attached(slots, tail, p);
    let grown = order.push(p as u16);
    let n = order.len() as int;
    assert(payload(after) =~= payload(slots));
    if n > 0 {
        assert(node_linked(slots, order, n - 1));
        assert(order[n - 1] != p);
    }
    assert forall|j: int| 0 <= j < grown.len() implies #[trigger] node_linked(after, grown, j) by {
        if j < n {
            assert(grown[j] == order[j]);
            assert(order[j] != p);
            assert(node_linked(slots, order, j));
            if j < n - 1 {
                assert(order[j] != order[n - 1]);
                assert(grown[j + 1] == order[j + 1]);
            }
            if j >= 1 {
                assert(grown[j - 1] == order[j - 1]);
            }
        }
    }
    assert forall|i: int, j: int| 0 <= i < j < grown.len() implies #[trigger] grown[i]
        != #[trigger] grown[j] by {
        if j < n {
            assert(order[i] != order[j]);
        } else {
            assert(order[i] != p);
        }
    }
    assert forall|j: int| 0 <= j < grown.len() implies (#[trigger] grown[j] as int)
        < after.len() by {
        if j < n {
            assert(grown[j] == order[j]);
        }
    }
}

/// A chain that does not list the last position is a chain of the store
/// without that position.
pub proof fn lemma_drop_last<K, V>(
    slots: Seq<Entry<K, V>>,
    order: Seq<u16>,
    head: u16,
    tail: u16,
)
    requires
        chained_in(slots, order, head, tail),
        slots.len() >= 1,
        forall|j: int| 0 <= j < order.len() ==> #[trigger] order[j] != slots.len() - 1,
    ensures
        chained_in(slots.drop_last(), order, head, tail),
{
    let after = slots.drop_last();
    assert forall|j: int| 0 <= j < order.len() implies #[trigger] node_linked(after, order, j) by {
        assert(node_linked(slots, order, j));
        assert(order[j] != slots.len() - 1);
    }
    assert forall|j: int| 0 <= j < order.len() implies (#[trigger] order[j] as int)
        < after.len() by {
        assert(order[j] != slots.len() - 1);
    }
}

/// Moving the last entry into a position that the chain does not list, and
/// pointing its neighbours at the new position, gives a chain of the whole
/// shortened store.
pub proof fn lemma_swap_relink<K, V>(
    slots: Seq<Entry<K, V>>,
    order: Seq<u16>,
    head: u16,
    tail: u16,
    p: int,
    m: int,
)
    requires
        chained_in(slots, order, head, tail),
        0 <= p < slots.len() - 1,
        order.len() == slots.len() - 1,
        forall|j: int| 0 <= j < order.len() ==> #[trigger] order[j] != p,
        0 <= m < order.len(),
        order[m] == slots.len() - 1,
    ensures
        ({
            let moved = slots.update(p, slots.last()).drop_last();
            let after = relinked(moved, p);
            &&& moved[p].prev == link_at(order, m - 1)
            &&& moved[p].next == link_at(order, m + 1)
            &&& moved[p].prev == SENTINEL || (moved[p].prev as int) < moved.len()
            &&& moved[p].next == SENTINEL || (moved[p].next as int) < moved.len()
            &&& chained(
                after,
                order.update(m, p as u16),
                if moved[p].prev == SENTINEL { p as u16 } else { head },
                if moved[p].next == SENTINEL { p as u16 } else { tail },
            )
            &&& payload(after) == payload(moved)
        }),
{
    let last = slots.len() - 1;
    let moved = slots.update(p, slots.last()).drop_last();
    let after = relinked(moved, p);
    let renamed = order.update(m, p as u16);
    let n = order.len() as int;
    assert(node_linked(slots, order, m));
    if m >= 1 {
        assert(order[m - 1] != order[m]);
        assert(order[m - 1] != p);
    }
    if m + 1 < n {
        assert(order[m] != order[m + 1]);
        assert(order[m + 1] != p);
    }
    assert(payload(after) =~= payload(moved));
    assert forall|j: int| 0 <= j < n implies #[trigger] node_linked(after, renamed, j) by {
        assert(node_linked(slots, order, j));
        assert(order[j] != p);
        if j != m {
            if j < m {
                assert(order[j] != order[m]);
            } else {
                assert(order[m] != order[j]);
            }
            if m >= 1 && j != m - 1 {
                if j < m - 1 {
                    assert(order[j] != order[m - 1]);
                } else {
                    assert(order[m - 1] != order[j]);
                }
            }
            if m + 1 < n && j != m + 1 {
                if j < m + 1 {
                    assert(order[j] != order[m + 1]);
                } else {
                    assert(order[m + 1] != order[j]);
                }
            }
            if j >= 1 && j - 1 != m {
                assert(order[j - 1] != order[j]);
                if j - 1 < m {
                    assert(order[j - 1] != order[m]);
                } else {
                    assert(order[m] != order[j - 1]);
                }
            }
            if j + 1 < n && j + 1 != m {
                assert(order[j] != order[j + 1]);
                if j + 1 < m {
                    assert(order[j + 1] != order[m]);
                } else {
                    assert(order[m] != order[j + 1]);
                }
            }
        }
    }
    assert forall|i: int, j: int| 0 <= i < j < n implies #[trigger] renamed[i]
        != #[trigger] renamed[j] by {
        assert(order[i] != order[j]);
        assert(order[i] != p);
        assert(order[j] != p);
    }
    assert forall|j: int| 0 <= j < n implies (#[trigger] renamed[j] as int) < after.len() by {
        if j != m {
            assert(renamed[j] == order[j]);
            if j < m {
                assert(order[j] != order[m]);
            } else {
                assert(order[m] != order[j]);
            }
        }
    }
}

/// The position at which the entry now at `q` stood before the entry at `p`
/// left a store whose last position was `last`.
pub open spec fn origin(q: int, p: int, last: int) -> int {
    if q == p {
        last
    } else {
        q
    }
}

/// `after` holds the keys and values of `before` without those at `p`, the
/// last entry of `before` standing at `p` in its place.
pub open spec fn compact_of<K, V>(
    before: Seq<Entry<K, V>>,
    after: Seq<Entry<K, V>>,
    p: int,
) -> bool {
    &&& before.len() == after.len() + 1
    &&& forall|q: int|
        0 <= q < after.len() ==> (#[trigger] after[q]).key == before[origin(
            q,
            p,
            after.len() as int,
        )].key && after[q].val == before[origin(q, p, after.len() as int)].val
}

/// Swap-compaction keeps keys and values, whatever is done to the links
/// after it.
pub proof fn lemma_compact_of<K, V>(before: Seq<Entry<K, V>>, after: Seq<Entry<K, V>>, p: int)
    requires
        0 <= p < before.len(),
        payload(after) == payload(before.update(p, before.last()).drop_last()),
    ensures
        compact_of(before, after, p),
{
    let moved = before.update(p, before.last()).drop_last();
    let last = before.len() - 1;
    assert(payload(after).len() == after.len());
    assert(payload(moved).len() == moved.len());
    assert forall|q: int| 0 <= q < after.len() implies (#[trigger] after[q]).key == before[origin(
        q,
        p,
        after.len() as int,
    )].key && after[q].val == before[origin(q, p, after.len() as int)].val by {
        let q0 = origin(q, p, last);
        assert(payload(after)[q] == (after[q].key, after[q].val));
        assert(payload(moved)[q] == (moved[q].key, moved[q].val));
        assert(moved[q] == before[q0]);
    }
}

/// How the compacted order is made: the rank taken out and, where another
/// entry moved, its rank pointed at the freed position.
pub proof fn lemma_compacted(order: Seq<u16>, r: int)
    requires
        forall|j: int| 0 <= j < order.len() ==> (#[trigger] order[j] as int) < order.len(),
        forall|i: int, j: int|
            0 <= i < j < order.len() ==> #[trigger] order[i] != #[trigger] order[j],
        0 <= r < order.len() <= 0xFFFF,
    ensures
        ({
            let rest = order.remove(r);
            let last = order.len() - 1;
            let m0 = order.index_of(last as u16);
            let m = if m0 < r { m0 } else { m0 - 1 };
            &&& forall|j: int| 0 <= j < rest.len() ==> #[trigger] rest[j] != order[r]
            &&& order[r] == last ==> compacted(order, r) == rest && forall|j: int|
                0 <= j < rest.len() ==> #[trigger] rest[j] != last
            &&& order[r] != last ==> 0 <= m < rest.len() && rest[m] == last && compacted(order, r)
                == rest.update(m, order[r])
            &&& forall|j: int|
                0 <= j < rest.len() ==> #[trigger] compacted(order, r)[j] == (if order[if j < r {
                    j
                } else {
                    j + 1
                }] == last {
                    order[r]
                } else {
                    order[if j < r {
                        j
                    } else {
                        j + 1
                    }]
                })
        }),
{
    let rest = order.remove(r);
    let last = order.len() - 1;
    lemma_rank_exists(order, last as u16);
    let m0 = order.index_of(last as u16);
    let m = if m0 < r { m0 } else { m0 - 1 };
    assert forall|j: int| 0 <= j < rest.len() implies #[trigger] rest[j] != order[r] by {
        let j0 = if j < r { j } else { j + 1 };
        assert(rest[j] == order[j0]);
        if j0 < r {
            assert(order[j0] != order[r]);
        } else {
            assert(order[r] != order[j0]);
        }
    }
    if order[r] == last {
        assert(compacted(order, r) =~= rest);
    } else {
        assert(rest[m] == order[m0]);
        assert forall|j: int| 0 <= j < rest.len() implies compacted(order, r)[j] == rest.update(
            m,
            order[r],
        )[j] by {
            if j != m {
                if j < m {
                    assert(rest[j] != rest[m]) by {
                        let j0 = if j < r { j } else { j + 1 };
                        assert(rest[j] == order[j0]);
                        if j0 < m0 {
                            assert(order[j0] != order[m0]);
                        } else {
                            assert(order[m0] != order[j0]);
                        }
                    }
                } else {
                    assert(rest[m] != rest[j]) by {
                        let j0 = if j < r { j } else { j + 1 };
                        assert(rest[j] == order[j0]);
                        if j0 < m0 {
                            assert(order[j0] != order[m0]);
                        } else {
                            assert(order[m0] != order[j0]);
                        }
                    }
                }
            }
        }
        assert(compacted(order, r) =~= rest.update(m, order[r]));
    }
    assert forall|j: int| 0 <= j < rest.len() implies #[trigger] compacted(order, r)[j] == (if order[if j
        < r {
        j
    } else {
        j + 1
    }] == last {
        order[r]
    } else {
        order[if j < r {
            j
        } else {
            j + 1
        }]
    }) by {
        let j0 = if j < r { j } else { j + 1 };
        assert(rest[j] == order[j0]);
    }
}

/// Read in the compacted order, a compacted store shows the old pairs
/// without the one that left.
pub proof fn lemma_compact_view<K, V>(
    before: Seq<Entry<K, V>>,
    after: Seq<Entry<K, V>>,
    order: Seq<u16>,
    r: int,
)
    requires
        order.len() == before.len(),
        forall|j: int| 0 <= j < order.len() ==> (#[trigger] order[j] as int) < order.len(),
        forall|i: int, j: int|
            0 <= i < j < order.len() ==> #[trigger] order[i] != #[trigger] order[j],
        0 <= r < order.len() <= 0xFFFF,
        compact_of(before, after, order[r] as int),
    ensures
        recency(after, compacted(order, r)) == recency(before, order).remove(r),
{
    lemma_compacted(order, r);
    let packed = compacted(order, r);
    let seen = recency(after, packed);
    let want = recency(before, order).remove(r);
    let last = order.len() - 1;
    let p = order[r] as int;
    assert(seen.len() == want.len());
    assert forall|j: int| 0 <= j < seen.len() implies seen[j] == want[j] by {
        let j0 = if j < r { j } else { j + 1 };
        assert(want[j] == recency(before, order)[j0]);
        assert(order.remove(r)[j] == order[j0]);
        assert(order.remove(r)[j] != order[r]);
        let q0 = order[j0] as int;
        let q = packed[j] as int;
        assert(q == if q0 == last { p } else { q0 });
        assert(origin(q, p, last) == q0);
        assert(after[q].key == before[q0].key);
    }
    assert(seen =~= want);
}

/// What a chain over the whole store looks like position by position: the
/// ends are the sentinel exactly when the store is empty and are positions
/// otherwise; nothing comes before the head or after the tail; and two
/// entries that are neighbours point at each other.
pub proof fn lemma_chain_shape<K, V>(
    slots: Seq<Entry<K, V>>,
    order: Seq<u16>,
    head: u16,
    tail: u16,
)
    requires
        chained(slots, order, head, tail),
    ensures
        (head == SENTINEL) == (slots.len() == 0),
        (tail == SENTINEL) == (slots.len() == 0),
        slots.len() > 0 ==> (head as int) < slots.len() && (tail as int) < slots.len(),
        slots.len() > 0 ==> slots[head as int].prev == SENTINEL && slots[tail as int].next
            == SENTINEL,
        forall|i: int|
            0 <= i < slots.len() && (#[trigger] slots[i]).next != SENTINEL ==> (slots[i].next as int)
                < slots.len() && slots[slots[i].next as int].prev == i,
        forall|i: int|
            0 <= i < slots.len() && (#[trigger] slots[i]).prev != SENTINEL ==> (slots[i].prev as int)
                < slots.len() && slots[slots[i].prev as int].next == i,
{
    let n = order.len() as int;
    if n > 0 {
        assert(node_linked(slots, order, 0));
        assert(node_linked(slots, order, n - 1));
        assert((order[0] as int) < n);
        assert((order[n - 1] as int) < n);
    }
    assert forall|i: int| 0 <= i < slots.len() && (#[trigger] slots[i]).next != SENTINEL implies (
    slots[i].next as int) < slots.len() && slots[slots[i].next as int].prev == i by {
        lemma_rank_exists(order, i as u16);
        let r = order.index_of(i as u16);
        assert(node_linked(slots, order, r));
        assert(node_linked(slots, order, r + 1));
        assert((order[r + 1] as int) < n);
    }
    assert forall|i: int| 0 <= i < slots.len() && (#[trigger] slots[i]).prev != SENTINEL implies (
    slots[i].prev as int) < slots.len() && slots[slots[i].prev as int].next == i by {
        lemma_rank_exists(order, i as u16);
        let r = order.index_of(i as u16);
        assert(node_linked(slots, order, r));
        assert(node_linked(slots, order, r - 1));
        assert((order[r - 1] as int) < n);
    }
}

/// Stores with the same keys and values hold them position by position.
pub proof fn lemma_same_payload<K, V>(a: Seq<Entry<K, V>>, b: Seq<Entry<K, V>>)
    requires
        payload(a) == payload(b),
    ensures
        a.len() == b.len(),
        forall|i: int|
            0 <= i < a.len() ==> (#[trigger] b[i]).key == a[i].key && b[i].val == a[i].val,
{
    assert(payload(a).len() == a.len());
    assert(payload(b).len() == b.len());
    assert forall|i: int| 0 <= i < a.len() implies (#[trigger] b[i]).key == a[i].key && b[i].val
        == a[i].val by {
        assert(payload(a)[i] == (a[i].key, a[i].val));
        assert(payload(b)[i] == (b[i].key, b[i].val));
    }
}

/// A link captured before swap-compaction, as it reads afterwards: the entry
/// that stood at `last` now stands at `p`.
pub open spec fn redirected(link: u16, last: int, p: int) -> u16 {
    if link == last {
        p as u16
    } else {
        link
    }
}

/// Joining the neighbours of an entry before the swap or, through
/// redirected links, after it comes to the same once the neighbours of the
/// entry that moved have been pointed at its new position.
proof fn lemma_swap_commutes<K, V>(slots: Seq<Entry<K, V>>, p: int)
    requires
        0 <= p < slots.len() - 1,
        slots.len() <= 0xFFFF,
        slots[p].prev == SENTINEL || (slots[p].prev as int) < slots.len(),
        slots[p].next == SENTINEL || (slots[p].next as int) < slots.len(),
        slots[p].prev != p,
        slots[p].next != p,
        slots[p].prev != slots[p].next || slots[p].prev == SENTINEL,
        slots.last().prev == SENTINEL || (slots.last().prev as int) < slots.len() - 1,
        slots.last().next == SENTINEL || (slots.last().next as int) < slots.len() - 1,
        slots.last().prev != slots.last().next || slots.last().prev == SENTINEL,
        (slots[p].next == slots.len() - 1) == (slots.last().prev == p),
        (slots[p].prev == slots.len() - 1) == (slots.last().next == p),
    ensures
        ({
            let last = slots.len() - 1;
            let prev = redirected(slots[p].prev, last, p);
            let next = redirected(slots[p].next, last, p);
            let loose = unlinked(slots.update(p, slots.last()).drop_last(), prev, next);
            let early = unlinked(slots, slots[p].prev, slots[p].next);
            let swapped = early.update(p, early.last()).drop_last();
            &&& loose[p] == swapped[p]
            &&& relinked(loose, p) == relinked(swapped, p)
        }),
{
    let last = slots.len() - 1;
    let prev0 = slots[p].prev;
    let next0 = slots[p].next;
    let prev = redirected(prev0, last, p);
    let next = redirected(next0, last, p);
    let moved = slots.update(p, slots.last()).drop_last();
    let loose = unlinked(moved, prev, next);
    let early = unlinked(slots, prev0, next0);
    let swapped = early.update(p, early.last()).drop_last();
    assert(early[p] == slots[p]);
    assert(swapped[p] == early[last]);
    assert(moved[p] == slots[last]);
    assert(loose[p] == swapped[p]) by {
        if next0 == last {
            assert(next == p);
            assert(early[last] == with_prev(slots[last], prev0));
            assert(loose[p] == with_prev(moved[p], prev));
        } else if prev0 == last {
            assert(prev == p);
            assert(early[last] == with_next(slots[last], next0));
            assert(loose[p] == with_next(moved[p], next));
        } else {
            assert(early[last] == slots[last]);
            assert(loose[p] == moved[p]);
        }
    }
    let got = relinked(loose, p);
    let want = relinked(swapped, p);
    let pm = loose[p].prev;
    let nm = loose[p].next;
    assert(got.len() == want.len());
    assert forall|q: int| 0 <= q < got.len() implies got[q] == want[q] by {
        if q != p {
            assert(swapped[q] == early[q]);
            assert(moved[q] == slots[q]);
            if q == prev0 && next0 == last {
                assert(pm == q);
            }
            if q == next0 && prev0 == last {
                assert(nm == q);
            }
        }
    }
    assert(got =~= want);
}

/// Removal of the entry at the last position: nothing moves, and joining
/// the neighbours of the entry that left gives a chain of the rest.
proof fn lemma_remove_last<K, V>(
    slots: Seq<Entry<K, V>>,
    order: Seq<u16>,
    head: u16,
    tail: u16,
    r: int,
)
    requires
        chained(slots, order, head, tail),
        0 <= r < order.len(),
        order.len() >= 2,
        order[r] == slots.len() - 1,
    ensures
        ({
            let p = order[r] as int;
            let prev = slots[p].prev;
            let next = slots[p].next;
            let loose = unlinked(slots.drop_last(), prev, next);
            &&& prev == SENTINEL || (prev as int) < slots.len() - 1
            &&& next == SENTINEL || (next as int) < slots.len() - 1
            &&& chained(
                loose,
                compacted(order, r),
                if prev == SENTINEL { next } else { head },
                if next == SENTINEL { prev } else { tail },
            )
        }),
{
    let n = order.len() as int;
    let p = order[r] as int;
    let rest = order.remove(r);
    assert(node_linked(slots, order, r));
    if r >= 1 {
        assert(order[r - 1] != order[r]);
    }
    if r + 1 < n {
        assert(order[r] != order[r + 1]);
    }
    let prev = slots[p].prev;
    let next = slots[p].next;
    let early = unlinked(slots, prev, next);
    lemma_unlink(slots, order, head, tail, r);
    lemma_compacted(order, r);
    lemma_drop_last(
        early,
        rest,
        if prev == SENTINEL { next } else { head },
        if next == SENTINEL { prev } else { tail },
    );
    assert(unlinked(slots.drop_last(), prev, next) =~= early.drop_last());
}

/// Removal of an entry before the last position: the last entry moves into
/// its place and the chain follows.
proof fn lemma_remove_inner<K, V>(
    slots: Seq<Entry<K, V>>,
    order: Seq<u16>,
    head: u16,
    tail: u16,
    r: int,
)
    requires
        chained(slots, order, head, tail),
        0 <= r < order.len(),
        order[r] < slots.len() - 1,
    ensures
        ({
            let p = order[r] as int;
            let last = slots.len() - 1;
            let prev = redirected(slots[p].prev, last, p);
            let next = redirected(slots[p].next, last, p);
            let moved = slots.update(p, slots.last()).drop_last();
            let loose = unlinked(moved, prev, next);
            let h1 = if prev == SENTINEL { next } else { head };
            let t1 = if next == SENTINEL { prev } else { tail };
            &&& prev == SENTINEL || (prev as int) < moved.len()
            &&& next == SENTINEL || (next as int) < moved.len()
            &&& loose[p].prev == SENTINEL || (loose[p].prev as int) < loose.len()
            &&& loose[p].next == SENTINEL || (loose[p].next as int) < loose.len()
            &&& chained(
                relinked(loose, p),
                compacted(order, r),
                if loose[p].prev == SENTINEL { p as u16 } else { h1 },
                if loose[p].next == SENTINEL { p as u16 } else { t1 },
            )
        }),
{
    let n = order.len() as int;
    let p = order[r] as int;
    let last = slots.len() - 1;
    let rest = order.remove(r);
    lemma_compacted(order, r);
    let m0 = order.index_of(last as u16);
    let m = if m0 < r { m0 } else { m0 - 1 };
    assert(node_linked(slots, order, r));
    assert(node_linked(slots, order, m0));
    if r >= 1 {
        assert(order[r - 1] != order[r]);
        assert((order[r - 1] as int) < n);
    }
    if r + 1 < n {
        assert(order[r] != order[r + 1]);
        assert((order[r + 1] as int) < n);
    }
    if r >= 1 && r + 1 < n {
        assert(order[r - 1] != order[r + 1]);
    }
    if m0 >= 1 {
        assert(order[m0 - 1] != order[m0]);
        assert((order[m0 - 1] as int) < n);
    }
    if m0 + 1 < n {
        assert(order[m0] != order[m0 + 1]);
        assert((order[m0 + 1] as int) < n);
    }
    if m0 >= 1 && m0 + 1 < n {
        assert(order[m0 - 1] != order[m0 + 1]);
    }
    if m0 < r {
        assert(order[m0] != order[r]);
        if m0 + 1 < r {
            assert(order[m0 + 1] != order[r]);
        }
        if m0 < r - 1 {
            assert(order[m0] != order[r - 1]);
        }
    } else {
        assert(order[r] != order[m0]);
        if r < m0 - 1 {
            assert(order[r] != order[m0 - 1]);
        }
        if r + 1 < m0 {
            assert(order[r + 1] != order[m0]);
        }
    }
    let prev0 = slots[p].prev;
    let next0 = slots[p].next;
    let h0 = if prev0 == SENTINEL { next0 } else { head };
    let t0 = if next0 == SENTINEL { prev0 } else { tail };
    let early = unlinked(slots, prev0, next0);
    lemma_unlink(slots, order, head, tail, r);
    lemma_swap_relink(early, rest, h0, t0, p, m);
    lemma_swap_commutes(slots, p);
}

/// Removal by swap-compaction: the entry of rank `r` leaves, the last entry
/// takes its position, the neighbours of the entry that left are joined
/// through their redirected links, and the neighbours of the entry that
/// moved are pointed at its new position. What results is a chain of the
/// whole shortened store in the compacted order.
pub proof fn lemma_remove<K, V>(
    slots: Seq<Entry<K, V>>,
    order: Seq<u16>,
    head: u16,
    tail: u16,
    r: int,
)
    requires
        chained(slots, order, head, tail),
        0 <= r < order.len(),
        order.len() >= 2,
    ensures
        ({
            let p = order[r] as int;
            let last = slots.len() - 1;
            let prev = redirected(slots[p].prev, last, p);
            let next = redirected(slots[p].next, last, p);
            let moved = slots.update(p, slots.last()).drop_last();
            let loose = unlinked(moved, prev, next);
            let h1 = if prev == SENTINEL { next } else { head };
            let t1 = if next == SENTINEL { prev } else { tail };
            &&& prev == SENTINEL || (prev as int) < moved.len()
            &&& next == SENTINEL || (next as int) < moved.len()
            &&& payload(loose) == payload(moved)
            &&& p == last ==> chained(loose, compacted(order, r), h1, t1)
            &&& p < last ==> {
                &&& loose[p].prev == SENTINEL || (loose[p].prev as int) < loose.len()
                &&& loose[p].next == SENTINEL || (loose[p].next as int) < loose.len()
                &&& payload(relinked(loose, p)) == payload(moved)
                &&& chained(
                    relinked(loose, p),
                    compacted(order, r),
                    if loose[p].prev == SENTINEL { p as u16 } else { h1 },
                    if loose[p].next == SENTINEL { p as u16 } else { t1 },
                )
            }
        }),
{
    let p = order[r] as int;
    let last = slots.len() - 1;
    let prev = redirected(slots[p].prev, last, p);
    let next = redirected(slots[p].next, last, p);
    let moved = slots.update(p, slots.last()).drop_last();
    let loose = unlinked(moved, prev, next);
    if p == last {
        assert(node_linked(slots, order, r));
        lemma_remove_last(slots, order, head, tail, r);
        assert(moved =~= slots.drop_last());
        assert(payload(loose) =~= payload(moved));
    } else {
        lemma_remove_inner(slots, order, head, tail, r);
        assert(payload(loose) =~= payload(moved));
        assert(payload(relinked(loose, p)) =~= payload(moved));
    }
}

} // verus!
