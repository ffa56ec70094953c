//! The cache as its users see it: keys with their values in recency order, a
//! capacity, and the lookup mode.

use vstd::prelude::*;

verus! {

/// The abstract state of a cache.
pub struct CacheView<K, V> {
    /// The live pairs, least recently used first.
    pub entries: Seq<(K, V)>,
    /// The ceiling on the number of live pairs.
    pub capacity: nat,
    /// Whether keys are found through the hash index.
    pub spilled: bool,
}

impl<K, V> CacheView<K, V> {
    /// An empty cache in scan mode.
    pub open spec fn empty(capacity: nat) -> Self {
        CacheView { entries: Seq::empty(), capacity, spilled: false }
    }

    /// The number of live pairs.
    pub open spec fn len(self) -> nat {
        self.entries.len()
    }

    /// Whether `key` is live.
    pub open spec fn contains_key(self, key: K) -> bool {
        exists|i: int| 0 <= i < self.entries.len() && (#[trigger] self.entries[i]).0 == key
    }

    /// The recency rank of `key`: 0 for the least recently used entry.
    pub open spec fn rank(self, key: K) -> int {
        choose|i: int| 0 <= i < self.entries.len() && (#[trigger] self.entries[i]).0 == key
    }

    /// The value of `key`, if it is live.
    pub open spec fn lookup(self, key: K) -> Option<V> {
        if self.contains_key(key) {
            Some(self.entries[self.rank(key)].1)
        } else {
            None
        }
    }

    /// No key is live twice.
    pub open spec fn distinct(self) -> bool {
        forall|i: int, j: int|
            0 <= i < j < self.entries.len() ==> (#[trigger] self.entries[i]).0
                != (#[trigger] self.entries[j]).0
    }

    /// A read that promotes: `key`, if live, becomes the most recently used.
    pub open spec fn touch(self, key: K) -> Self {
        if self.contains_key(key) {
            let r = self.rank(key);
            CacheView { entries: self.entries.remove(r).push(self.entries[r]), ..self }
        } else {
            self
        }
    }

    /// Whether inserting a new key first puts the least recently used entry out.
    pub open spec fn evicts(self) -> bool {
        self.len() >= self.capacity && self.len() > 0
    }

    /// Whether inserting a new key builds the hash index, for inline size `n`.
    pub open spec fn spills(self, n: nat) -> bool {
        self.len() == n && self.capacity > n
    }

    /// A write to a live key: `key` gets `value` and becomes the most
    /// recently used.
    pub open spec fn put(self, key: K, value: V) -> Self {
        CacheView { entries: self.entries.remove(self.rank(key)).push((key, value)), ..self }
    }

    /// Insert or update, for inline size `n`. A live key is written in
    /// place. A new key first builds the hash index where the cache holds
    /// exactly `n` entries and may hold more, then puts the least recently
    /// used entry out where the cache is full, and comes in as the most
    /// recently used.
    pub open spec fn push(self, n: nat, key: K, value: V) -> Self {
        if self.contains_key(key) {
            self.put(key, value)
        } else {
            CacheView {
                entries: (if self.evicts() {
                    self.entries.drop_first()
                } else {
                    self.entries
                }).push((key, value)),
                capacity: self.capacity,
                spilled: self.spilled || self.spills(n),
            }
        }
    }

    /// Without the least recently used entry.
    pub open spec fn pop(self) -> Self {
        if self.len() > 0 {
            CacheView { entries: self.entries.drop_first(), ..self }
        } else {
            self
        }
    }

    /// Without `key`; the others keep their order.
    pub open spec fn remove(self, key: K) -> Self {
        if self.contains_key(key) {
            CacheView { entries: self.entries.remove(self.rank(key)), ..self }
        } else {
            self
        }
    }

    /// Empty and back in scan mode, at the same capacity.
    pub open spec fn clear(self) -> Self {
        CacheView { entries: Seq::empty(), capacity: self.capacity, spilled: false }
    }

    /// With another ceiling; nothing comes or goes.
    pub open spec fn set_capacity(self, capacity: nat) -> Self {
        CacheView { capacity, ..self }
    }

    /// Whether the cache may go back to scan mode, for inline size `n`.
    pub open spec fn can_unspill(self, n: nat) -> bool {
        self.spilled && self.len() <= n
    }

    /// Back in scan mode where that is possible, unchanged where it is not.
    pub open spec fn unspill(self, n: nat) -> Self {
        if self.can_unspill(n) {
            CacheView { spilled: false, ..self }
        } else {
            self
        }
    }
}

} // verus!
