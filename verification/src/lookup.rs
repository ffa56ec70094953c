//! Key lookup: keys are live once, and the hash index, where there is one,
//! mirrors the store.

use crate::links::compact_of;
use crate::links::origin;
use crate::links::Entry;
use vstd::prelude::*;

verus! {

/// No two positions hold the same key.
pub open spec fn distinct_keys<K, V>(slots: Seq<Entry<K, V>>) -> bool {
    forall|i: int, j: int|
        0 <= i < j < slots.len() ==> (#[trigger] slots[i]).key != (#[trigger] slots[j]).key
}

/// `m` maps every live key to its position and holds no other key.
pub open spec fn indexes<K, V>(m: Map<K, u16>, slots: Seq<Entry<K, V>>) -> bool {
    &&& forall|i: int|
        0 <= i < slots.len() ==> m.contains_key((#[trigger] slots[i]).key) && m[slots[i].key] == i
    &&& forall|k: K| #[trigger]
        m.contains_key(k) ==> (m[k] as int) < slots.len() && slots[m[k] as int].key == k
}

/// The index of a store after the entry at `p` has left it by swap-compaction.
pub open spec fn compacted_index<K, V>(m: Map<K, u16>, before: Seq<Entry<K, V>>, p: int) -> Map<
    K,
    u16,
> {
    let last = before.len() - 1;
    if p < last {
        m.remove(before[p].key).insert(before[last].key, p as u16)
    } else {
        m.remove(before[p].key)
    }
}

/// Swap-compaction does not bring a key in twice.
pub proof fn lemma_compact_keys<K, V>(before: Seq<Entry<K, V>>, after: Seq<Entry<K, V>>, p: int)
    requires
        0 <= p < before.len(),
        compact_of(before, after, p),
        distinct_keys(before),
    ensures
        distinct_keys(after),
{
    let last = before.len() - 1;
    assert forall|i: int, j: int| 0 <= i < j < after.len() implies (#[trigger] after[i]).key
        != (#[trigger] after[j]).key by {
        let i0 = origin(i, p, last);
        let j0 = origin(j, p, last);
        if i0 < j0 {
            assert(before[i0].key != before[j0].key);
        } else {
            assert(before[j0].key != before[i0].key);
        }
    }
}

/// The index follows swap-compaction by forgetting the key that left and
/// recording the new position of the entry that moved.
pub proof fn lemma_compact_index<K, V>(
    m: Map<K, u16>,
    before: Seq<Entry<K, V>>,
    after: Seq<Entry<K, V>>,
    p: int,
)
    requires
        0 <= p < before.len() <= 0xFFFF,
        compact_of(before, after, p),
        distinct_keys(before),
        indexes(m, before),
    ensures
        indexes(compacted_index(m, before, p), after),
{
    let last = before.len() - 1;
    let gone = before[p].key;
    let w = compacted_index(m, before, p);
    assert forall|q: int| 0 <= q < after.len() implies w.contains_key((#[trigger] after[q]).key)
        && w[after[q].key] == q by {
        let q0 = origin(q, p, last);
        assert(after[q].key == before[q0].key);
        assert(m.contains_key(before[q0].key));
        if q0 < p {
            assert(before[q0].key != before[p].key);
        } else {
            assert(before[p].key != before[q0].key);
        }
        if p < last && q != p {
            assert(before[q].key != before[last].key);
        }
    }
    assert forall|k: K| #[trigger] w.contains_key(k) implies (w[k] as int) < after.len()
        && after[w[k] as int].key == k by {
        if p < last && k == before[last].key {
            assert(after[p].key == before[origin(p, p, last)].key);
        } else {
            assert(m.contains_key(k));
            let q0 = m[k] as int;
            assert(before[q0].key == k);
            assert(q0 != p);
            if q0 == last {
                assert(p == last);
            }
            assert(after[q0].key == before[origin(q0, p, last)].key);
        }
    }
}

/// The index holds as many keys as the store has entries.
pub proof fn lemma_index_len<K, V>(m: Map<K, u16>, slots: Seq<Entry<K, V>>)
    requires
        indexes(m, slots),
        distinct_keys(slots),
    ensures
        m.dom().finite(),
        m.dom().len() == slots.len(),
{
    let keys = slots.map_values(|e: Entry<K, V>| e.key);
    assert forall|i: int, j: int| 0 <= i < keys.len() && 0 <= j < keys.len() && i != j implies keys[i]
        != keys[j] by {
        if i < j {
            assert(slots[i].key != slots[j].key);
        } else {
            assert(slots[j].key != slots[i].key);
        }
    }
    keys.unique_seq_to_set();
    vstd::seq_lib::seq_to_set_is_finite(keys);
    assert forall|k: K| keys.to_set().contains(k) <==> m.dom().contains(k) by {
        if keys.to_set().contains(k) {
            let i = choose|i: int| 0 <= i < keys.len() && keys[i] == k;
            assert(slots[i].key == k);
        }
        if m.dom().contains(k) {
            assert(m.contains_key(k));
            assert(keys[m[k] as int] == k);
        }
    }
    assert(keys.to_set() =~= m.dom());
}

/// `after` is `before` with one more entry at the end, which holds `key`.
pub open spec fn grown_by<K, V>(before: Seq<Entry<K, V>>, after: Seq<Entry<K, V>>, key: K) -> bool {
    &&& after.len() == before.len() + 1
    &&& forall|i: int| 0 <= i < before.len() ==> (#[trigger] after[i]).key == before[i].key
    &&& after[before.len() as int].key == key
}

/// Appending a key that no position holds does not bring a key in twice.
pub proof fn lemma_push_keys<K, V>(before: Seq<Entry<K, V>>, after: Seq<Entry<K, V>>, key: K)
    requires
        grown_by(before, after, key),
        distinct_keys(before),
        forall|i: int| 0 <= i < before.len() ==> (#[trigger] before[i]).key != key,
    ensures
        distinct_keys(after),
{
    assert forall|i: int, j: int| 0 <= i < j < after.len() implies (#[trigger] after[i]).key
        != (#[trigger] after[j]).key by {
        assert(after[i].key == before[i].key);
        if j < before.len() {
            assert(after[j].key == before[j].key);
            assert(before[i].key != before[j].key);
        } else {
            assert(before[i].key != key);
        }
    }
}

/// The index follows an append by recording the new key at the new position.
pub proof fn lemma_push_index<K, V>(
    m: Map<K, u16>,
    before: Seq<Entry<K, V>>,
    after: Seq<Entry<K, V>>,
    key: K,
)
    requires
        grown_by(before, after, key),
        before.len() < 0xFFFF,
        indexes(m, before),
        forall|i: int| 0 <= i < before.len() ==> (#[trigger] before[i]).key != key,
    ensures
        indexes(m.insert(key, before.len() as u16), after),
{
    let w = m.insert(key, before.len() as u16);
    assert forall|i: int| 0 <= i < after.len() implies w.contains_key((#[trigger] after[i]).key)
        && w[after[i].key] == i by {
        if i < before.len() {
            assert(after[i].key == before[i].key);
            assert(before[i].key != key);
            assert(m.contains_key(before[i].key));
        }
    }
    assert forall|k: K| #[trigger] w.contains_key(k) implies (w[k] as int) < after.len()
        && after[w[k] as int].key == k by {
        if k != key {
            assert(m.contains_key(k));
            assert(after[m[k] as int].key == before[m[k] as int].key);
        }
    }
}

} // verus!
