//! The cache: compact store, recency chain and key lookup kept in step.

use crate::keys::clone_key;
use crate::keys::key_model;
use crate::keys::same_key;
use crate::links::attached;
use crate::links::chained;
use crate::links::chained_in;
use crate::links::compacted;
use crate::links::Entry;
use crate::links::lemma_attach;
use crate::links::lemma_chain_shape;
use crate::links::lemma_compact_of;
use crate::links::lemma_compact_view;
use crate::links::lemma_compacted;
use crate::links::lemma_rank_exists;
use crate::links::lemma_remove;
use crate::links::lemma_same_payload;
use crate::links::lemma_unlink;
use crate::links::link_at;
use crate::links::MAX_CAPACITY;
use crate::links::node_linked;
use crate::links::payload;
use crate::links::promoted;
use crate::links::recency;
use crate::links::relinked;
use crate::links::SENTINEL;
use crate::links::unlinked;
use crate::lookup::compacted_index;
use crate::lookup::distinct_keys;
use crate::lookup::indexes;
use crate::lookup::lemma_compact_index;
use crate::lookup::lemma_compact_keys;
use crate::lookup::grown_by;
use crate::lookup::lemma_index_len;
use crate::lookup::lemma_push_index;
use crate::lookup::lemma_push_keys;
use crate::model::CacheView;
use crate::outside::index_get;
use crate::outside::index_insert;
use crate::outside::index_len;
use crate::outside::index_remove;
use crate::store::store_clear;
use crate::store::store_entry;
use crate::store::store_entry_mut;
use crate::store::store_len;
use crate::store::store_new;
use crate::store::store_push;
use crate::store::store_shrink_to_fit;
use crate::store::store_swap_remove;
use crate::store::Store;
use core::hash::Hash;
use likely_stable::unlikely;
use rustc_hash::FxHashMap;
use vstd::prelude::*;

verus! {

/// The inline size `N` leaves room for the sentinel. A call only verifies
/// where that is known, so an oversized `N` is found before the program runs.
pub fn assert_capacity_limit<const N: usize>()
    requires
        N <= MAX_CAPACITY,
{
}

/// `x`, or 1 where `x` is 0: a cache keeps the entry pushed last even at
/// capacity 0.
pub open spec fn at_least_one(x: nat) -> nat {
    if x == 0 {
        1
    } else {
        x
    }
}

/// LRU cache with a linear scan for small sizes and a hash index beyond.
#[verifier::reject_recursive_types(K)]
#[verifier::reject_recursive_types(V)]
pub struct TinyLru<K: Default, V: Default, const N: usize> {
    // Compact: no holes; a removal moves the last entry into the freed position.
    // Inline while at most `N` entries are live.
    store: Store<K, V, N>,
    // Position of the least recently used entry; sentinel if empty.
    head: u16,
    // Position of the most recently used entry; sentinel if empty.
    tail: u16,
    // Key to position. Built on the first spill; absent in scan mode.
    index: Option<FxHashMap<K, u16>>,
    capacity: u16,
    // Store positions in recency order, least recently used first.
    order: Ghost<Seq<u16>>,
}

impl<K: Default, V: Default, const N: usize> View for TinyLru<K, V, N> {
    type V = CacheView<K, V>;

    closed spec fn view(&self) -> CacheView<K, V> {
        CacheView {
            entries: recency(self.store@, self.order@),
            capacity: self.capacity as nat,
            spilled: self.index is Some,
        }
    }
}

/// The positions after a read of `key` that promotes.
pub open spec fn touched_positions<K, V>(order: Seq<u16>, view: CacheView<K, V>, key: K) -> Seq<
    u16,
> {
    if view.contains_key(key) {
        promoted(order, view.rank(key))
    } else {
        order
    }
}

/// The positions after `key` has been pushed: a live key is promoted where
/// it stands; a new one goes to the end of the store, after the least
/// recently used entry has been compacted away where the cache was full.
pub open spec fn pushed_positions<K, V>(order: Seq<u16>, view: CacheView<K, V>, key: K) -> Seq<
    u16,
> {
    if view.contains_key(key) {
        promoted(order, view.rank(key))
    } else {
        let kept = if view.evicts() {
            compacted(order, 0)
        } else {
            order
        };
        kept.push(kept.len() as u16)
    }
}

/// The positions after `key` has been removed.
pub open spec fn removed_positions<K, V>(order: Seq<u16>, view: CacheView<K, V>, key: K) -> Seq<
    u16,
> {
    if view.contains_key(key) {
        compacted(order, view.rank(key))
    } else {
        order
    }
}

impl<K: Eq + Hash + Default + Clone, V: Default, const N: usize> TinyLru<K, V, N> {
    /// The store: the entry at each position.
    pub closed spec fn slots(&self) -> Seq<Entry<K, V>> {
        self.store@
    }

    /// The store position of each entry, least recently used first.
    pub closed spec fn positions(&self) -> Seq<u16> {
        self.order@
    }

    /// The stored link to the least recently used entry.
    pub closed spec fn head_link(&self) -> u16 {
        self.head
    }

    /// The stored link to the most recently used entry.
    pub closed spec fn tail_link(&self) -> u16 {
        self.tail
    }

    /// The hash index, where there is one.
    pub closed spec fn index_map(&self) -> Option<Map<K, u16>> {
        match self.index {
            Some(m) => Some(m@),
            None => None,
        }
    }

    /// What holds of a cache whatever its size: the keys behave as keys; the
    /// inline size and the capacity are in range; the links form one chain
    /// through all positions in recency order; the view shows the store read
    /// along that chain; no key is live twice; and the hash index, present
    /// exactly in indexed mode, maps each live key to its position and
    /// nothing else.
    pub open spec fn linked(&self) -> bool {
        &&& key_model::<K>()
        &&& N <= MAX_CAPACITY
        &&& N <= self@.capacity <= MAX_CAPACITY
        &&& chained(self.slots(), self.positions(), self.head_link(), self.tail_link())
        &&& self@.entries == recency(self.slots(), self.positions())
        &&& distinct_keys(self.slots())
        &&& self@.spilled == (self.index_map() is Some)
        &&& self.index_map() matches Some(m) ==> indexes(m, self.slots())
    }

    /// What holds of every cache between two calls: it is linked, and its
    /// size is within its capacity (or 1, at capacity 0).
    pub open spec fn wf(&self) -> bool {
        &&& self.linked()
        &&& self.slots().len() <= at_least_one(self@.capacity)
    }
}

impl<K: Eq + Hash + Default + Clone, V: Default, const N: usize> TinyLru<K, V, N> {
    /// Create with capacity = N.
    pub fn new() -> (cache: Self)
        requires
            key_model::<K>(),
            N <= MAX_CAPACITY,
        ensures
            cache.wf(),
            cache@ == CacheView::<K, V>::empty(N as nat),
            cache.positions() == Seq::<u16>::empty(),
    {
        assert_capacity_limit::<N>();
        let cache = Self {
            store: store_new(),
            head: SENTINEL,
            tail: SENTINEL,
            index: None,
            capacity: N as u16,
            order: Ghost(Seq::empty()),
        };
        assert(cache@.entries =~= Seq::empty());
        cache
    }

    /// Create with specified capacity (must be >= N and <= MAX_CAPACITY).
    pub fn with_capacity(cap: u16) -> (cache: Self)
        requires
            key_model::<K>(),
            N <= MAX_CAPACITY,
            cap >= N,
            cap <= MAX_CAPACITY,
        ensures
            cache.wf(),
            cache@ == CacheView::<K, V>::empty(cap as nat),
            cache.positions() == Seq::<u16>::empty(),
    {
        assert_capacity_limit::<N>();
        let cache = Self {
            store: store_new(),
            head: SENTINEL,
            tail: SENTINEL,
            index: None,
            capacity: cap,
            order: Ghost(Seq::empty()),
        };
        assert(cache@.entries =~= Seq::empty());
        cache
    }

    /// Insert or update; promotes on hit.
    pub fn push(&mut self, key: K, value: V)
        requires
            old(self).wf(),
        ensures
            final(self).wf(),
            final(self)@ == old(self)@.push(N as nat, key, value),
            final(self).positions() == pushed_positions(old(self).positions(), old(self)@, key),
    {
        let ghost before = self@;
        let ghost order = self.order@;
        match self.find_key_index(&key) {
            Some(index) => {
                let ghost start = *self;
                let ghost r = order.index_of(index as u16);
                proof {
                    self.lemma_rank_of_position(index as int);
                }
                let slot = store_entry_mut(&mut self.store, index);
                slot.val = value;
                proof {
                    assert(self.store@ =~= start.store@.update(
                        index as int,
                        Entry {
                            key: start.store@[index as int].key,
                            val: value,
                            next: start.store@[index as int].next,
                            prev: start.store@[index as int].prev,
                        },
                    ));
                    start.lemma_value_changed(self, index as int);
                    self.lemma_rank_of_position(index as int);
                }
                self.promote_to_mru(index);
                proof {
                    assert(self@.entries =~= before.entries.remove(r).push((key, value)));
                }
                return ;
            },
            None => {},
        }
        if unlikely(store_len(&self.store) == N && self.capacity > N as u16) {
            self.spill();
        }
        if unlikely(store_len(&self.store) >= self.capacity as usize) {
            self.pop();
        }
        proof {
            if self@.contains_key(key) {
                let j = self@.rank(key);
                if before.evicts() {
                    assert(self@.entries[j] == before.entries[j + 1]);
                } else {
                    assert(self@.entries[j] == before.entries[j]);
                }
            }
            self.lemma_view_distinct();
        }
        self.insert(key, value);
    }

    /// Pop and return the LRU entry.
    pub fn pop(&mut self) -> (popped: Option<(K, V)>)
        requires
            old(self).wf(),
        ensures
            final(self).wf(),
            final(self)@ == old(self)@.pop(),
            popped == (if old(self)@.len() > 0 {
                Some(old(self)@.entries[0])
            } else {
                None
            }),
            final(self).positions() == (if old(self)@.len() > 0 {
                compacted(old(self).positions(), 0)
            } else {
                old(self).positions()
            }),
    {
        proof {
            self.lemma_view_distinct();
        }
        if self.is_empty() {
            return None;
        }
        let lru_index = self.head as usize;
        proof {
            self.lemma_rank_of_position(lru_index as int);
            let r = self.order@.index_of(lru_index as u16);
            if r > 0 {
                assert(self.order@[0] != self.order@[r]);
            }
            assert(self@.entries.remove(0) =~= self@.entries.drop_first());
        }
        let pair = self.remove_at(lru_index);
        Some(pair)
    }

    /// Get by key, promoting to MRU on hit.
    pub fn get(&mut self, key: &K) -> (value: Option<&V>)
        requires
            old(self).wf(),
        ensures
            final(self).wf(),
            final(self)@ == old(self)@.touch(*key),
            final(self).positions() == touched_positions(old(self).positions(), old(self)@, *key),
            match value {
                Some(v) => old(self)@.lookup(*key) == Some(*v),
                None => old(self)@.lookup(*key) is None,
            },
    {
        match self.find_key_index(key) {
            Some(index) => {
                proof {
                    self.lemma_rank_of_position(index as int);
                }
                self.promote_to_mru(index);
                proof {
                    lemma_same_payload(old(self).store@, self.store@);
                }
                Some(&store_entry(&self.store, index).val)
            },
            None => None,
        }
    }

    /// Get mutable by key, promoting to MRU on hit. What the caller writes
    /// through the reference becomes the value of `key`.
    pub fn get_mut(&mut self, key: &K) -> (value: Option<&mut V>)
        requires
            old(self).wf(),
        ensures
            final(self).wf(),
            final(self).positions() == touched_positions(old(self).positions(), old(self)@, *key),
            match value {
                Some(v) => old(self)@.lookup(*key) == Some(*v) && final(self)@ == old(self)@.put(
                    *key,
                    *final(v),
                ),
                None => old(self)@.lookup(*key) is None && final(self)@ == old(self)@,
            },
    {
        match self.find_key_index(key) {
            Some(index) => {
                let ghost before = self@;
                let ghost r = self.order@.index_of(index as u16);
                proof {
                    self.lemma_rank_of_position(index as int);
                }
                self.promote_to_mru(index);
                let ghost mid = *self;
                proof {
                    lemma_same_payload(old(self).store@, self.store@);
                    mid.lemma_rank_of_position(index as int);
                }
                proof {
                    assert forall|to: Self| mid.value_differs(&to, index as int) implies #[trigger] to.wf()
                        by {
                        mid.lemma_value_changed(&to, index as int);
                    }
                    assert forall|to: Self|
                        mid.value_differs(&to, index as int) implies #[trigger] to.positions()
                        == mid.positions() by {
                        mid.lemma_value_changed(&to, index as int);
                    }
                    assert forall|to: Self| mid.value_differs(&to, index as int) implies #[trigger] to@
                        == before.put(*key, to.store@[index as int].val) by {
                        mid.lemma_value_changed(&to, index as int);
                        assert(to@.entries =~= before.entries.remove(r).push(
                            (*key, to.store@[index as int].val),
                        ));
                    }
                }
                let slot = store_entry_mut(&mut self.store, index);
                let v = &mut slot.val;
                Some(v)
            },
            None => None,
        }
    }

    /// Peek without promotion. The cache is borrowed shared, so nothing of it
    /// changes: what later calls return does not depend on this one.
    pub fn peek(&self, key: &K) -> (value: Option<&V>)
        requires
            self.wf(),
        ensures
            match value {
                Some(v) => self@.lookup(*key) == Some(*v),
                None => self@.lookup(*key) is None,
            },
    {
        match self.find_key_index(key) {
            Some(index) => {
                proof {
                    self.lemma_rank_of_position(index as int);
                }
                Some(&store_entry(&self.store, index).val)
            },
            None => None,
        }
    }

    /// Remove by key and return owned pair.
    pub fn remove(&mut self, key: &K) -> (removed: Option<(K, V)>)
        requires
            old(self).wf(),
        ensures
            final(self).wf(),
            final(self)@ == old(self)@.remove(*key),
            removed == (match old(self)@.lookup(*key) {
                Some(v) => Some((*key, v)),
                None => None,
            }),
            final(self).positions() == removed_positions(old(self).positions(), old(self)@, *key),
    {
        match self.find_key_index(key) {
            Some(index) => {
                proof {
                    self.lemma_rank_of_position(index as int);
                }
                let pair = self.remove_at(index);
                Some(pair)
            },
            None => None,
        }
    }

    /// Clear all entries.
    pub fn clear(&mut self)
        requires
            old(self).wf(),
        ensures
            final(self).wf(),
            final(self)@ == old(self)@.clear(),
            final(self).positions() == Seq::<u16>::empty(),
    {
        store_clear(&mut self.store);
        self.head = SENTINEL;
        self.tail = SENTINEL;
        self.index = None;
        self.order = Ghost(Seq::empty());
        assert(self@.entries =~= Seq::empty());
    }

    /// Adjust capacity. Requires new_cap > size, new_cap >= N and
    /// new_cap <= MAX_CAPACITY.
    pub fn set_capacity(&mut self, new_cap: u16)
        requires
            old(self).wf(),
            new_cap > old(self)@.len(),
            new_cap >= N,
            new_cap <= MAX_CAPACITY,
        ensures
            final(self).wf(),
            final(self)@ == old(self)@.set_capacity(new_cap as nat),
            final(self).positions() == old(self).positions(),
    {
        proof {
            self.lemma_view_distinct();
        }
        self.capacity = new_cap;
    }

    /// Current number of items.
    pub fn len(&self) -> (n: u16)
        requires
            self.wf(),
        ensures
            n == self@.len(),
    {
        proof {
            self.lemma_view_distinct();
        }
        store_len(&self.store) as u16
    }

    /// Whether the cache is empty.
    pub fn is_empty(&self) -> (empty: bool)
        requires
            self.wf(),
        ensures
            empty == (self@.len() == 0),
    {
        proof {
            self.lemma_view_distinct();
        }
        store_len(&self.store) == 0
    }

    /// Current capacity.
    pub fn capacity(&self) -> (cap: u16)
        ensures
            cap == self@.capacity,
    {
        self.capacity
    }

    /// Contains key.
    pub fn contains_key(&self, key: &K) -> (found: bool)
        requires
            self.wf(),
        ensures
            found == self@.contains_key(*key),
    {
        self.find_key_index(key).is_some()
    }

    /// Check if the cache has built its hash index.
    pub fn is_spilled(&self) -> (spilled: bool)
        ensures
            spilled == self@.spilled,
    {
        self.index.is_some()
    }

    /// Check if unspill is currently possible.
    pub fn can_unspill(&self) -> (possible: bool)
        requires
            self.wf(),
        ensures
            possible == self@.can_unspill(N as nat),
    {
        proof {
            self.lemma_view_distinct();
        }
        self.is_spilled() && store_len(&self.store) <= N
    }

    /// Attempt to go back from the hash index to the linear scan.
    /// Returns true if that was done, false if it is not possible.
    pub fn unspill(&mut self) -> (done: bool)
        requires
            old(self).wf(),
        ensures
            final(self).wf(),
            done == old(self)@.can_unspill(N as nat),
            final(self)@ == old(self)@.unspill(N as nat),
            final(self).positions() == old(self).positions(),
    {
        if !self.can_unspill() {
            return false;
        }
        store_shrink_to_fit(&mut self.store);
        self.index = None;
        true
    }
}

impl<K: Eq + Hash + Default + Clone, V: Default, const N: usize> TinyLru<K, V, N> {
    /// Find the position of a key: by a linear scan in scan mode, through the
    /// hash index once the cache has spilled.
    pub fn find_key_index(&self, key: &K) -> (found: Option<usize>)
        requires
            self.wf(),
        ensures
            match found {
                Some(i) => i < self.slots().len() && self.slots()[i as int].key == *key
                    && self@.contains_key(*key) && i == self.positions()[self@.rank(*key)],
                None => !self@.contains_key(*key) && forall|i: int|
                    0 <= i < self.slots().len() ==> (#[trigger] self.slots()[i]).key != *key,
            },
    {
        let found = match &self.index {
            Some(index) => {
                match index_get(index, key) {
                    Some(idx) => Some(idx as usize),
                    None => None,
                }
            },
            None => self.scan(key),
        };
        proof {
            match found {
                Some(i) => {
                    self.lemma_rank_of_position(i as int);
                },
                None => {
                    self.lemma_absent(*key);
                },
            }
        }
        found
    }

    /// Make the entry at `index` the most recently used.
    pub fn promote_to_mru(&mut self, index: usize)
        requires
            old(self).wf(),
            index < old(self).slots().len(),
        ensures
            final(self).wf(),
            final(self).positions() == promoted(
                old(self).positions(),
                old(self).positions().index_of(index as u16),
            ),
            final(self)@ == old(self)@.touch(old(self).slots()[index as int].key),
            payload(final(self).slots()) == payload(old(self).slots()),
    {
        let ghost order = self.order@;
        let ghost slots = self.store@;
        let ghost before = self@;
        proof {
            self.lemma_rank_of_position(index as int);
        }
        let ghost r = order.index_of(index as u16);
        if store_len(&self.store) <= 1 || index == self.tail as usize {
            proof {
                let n = order.len() as int;
                if r < n - 1 {
                    assert(order[r] != order[n - 1]);
                }
                assert(promoted(order, r) =~= order);
                assert(promoted(before.entries, r) =~= before.entries);
            }
            return ;
        }
        let prev: u16 = store_entry(&self.store, index).prev;
        let next: u16 = store_entry(&self.store, index).next;
        proof {
            lemma_unlink(slots, order, self.head, self.tail, r);
        }
        self.remove_from_dll(index, prev, next);
        proof {
            lemma_compacted(order, r);
            lemma_attach(self.store@, order.remove(r), self.head, self.tail, index as int);
        }
        self.attach_at_tail(index);
        self.order = Ghost(promoted(order, r));
        proof {
            lemma_same_payload(slots, self.store@);
            self.lemma_promoted_view(slots, order, r);
            assert(self@.entries =~= promoted(before.entries, r));
        }
    }

    /// The position of the least recently used entry; the sentinel if empty.
    pub fn head(&self) -> (head: u16)
        requires
            self.wf(),
        ensures
            head == link_at(self.positions(), 0),
    {
        self.head
    }

    /// The position of the most recently used entry; the sentinel if empty.
    pub fn tail(&self) -> (tail: u16)
        requires
            self.wf(),
        ensures
            tail == link_at(self.positions(), self.positions().len() - 1),
    {
        self.tail
    }

    /// The entry at a position of the store.
    pub fn entry(&self, position: usize) -> (entry: &Entry<K, V>)
        requires
            self.wf(),
            position < self@.len(),
        ensures
            *entry == self.slots()[position as int],
    {
        proof {
            self.lemma_view_distinct();
        }
        store_entry(&self.store, position)
    }

    /// The position that the hash index records for `key`; `None` in scan
    /// mode and for a key that is not live.
    pub fn index_position(&self, key: &K) -> (position: Option<u16>)
        requires
            self.wf(),
        ensures
            position == (if self@.spilled && self@.contains_key(*key) {
                Some(self.positions()[self@.rank(*key)])
            } else {
                None
            }),
    {
        match &self.index {
            Some(index) => {
                let position = index_get(index, key);
                proof {
                    match position {
                        Some(i) => {
                            self.lemma_rank_of_position(i as int);
                        },
                        None => {
                            self.lemma_absent(*key);
                        },
                    }
                }
                position
            },
            None => None,
        }
    }

    /// The number of keys in the hash index; `None` in scan mode.
    pub fn index_len(&self) -> (n: Option<usize>)
        requires
            self.wf(),
        ensures
            n == (if self@.spilled {
                Some(self@.len() as usize)
            } else {
                None
            }),
    {
        match &self.index {
            Some(index) => {
                proof {
                    self.lemma_view_distinct();
                    lemma_index_len(index@, self.store@);
                }
                Some(index_len(index))
            },
            None => None,
        }
    }
}

impl<K: Eq + Hash + Default + Clone, V: Default, const N: usize> TinyLru<K, V, N> {
    /// Linear scan over the compact store.
    fn scan(&self, key: &K) -> (found: Option<usize>)
        requires
            key_model::<K>(),
        ensures
            match found {
                Some(i) => i < self.store@.len() && self.store@[i as int].key == *key,
                None => forall|i: int|
                    0 <= i < self.store@.len() ==> (#[trigger] self.store@[i]).key != *key,
            },
    {
        let mut i: usize = 0;
        while i < store_len(&self.store)
            invariant
                key_model::<K>(),
                i <= self.store@.len(),
                forall|k: int| 0 <= k < i ==> (#[trigger] self.store@[k]).key != *key,
            decreases self.store@.len() - i,
        {
            if same_key(&store_entry(&self.store, i).key, key) {
                return Some(i);
            }
            i += 1;
        }
        None
    }

    /// Build the hash index from the store.
    fn spill(&mut self)
        requires
            key_model::<K>(),
            distinct_keys(old(self).store@),
            old(self).store@.len() <= 0xFFFF,
        ensures
            final(self).index is Some,
            indexes(final(self).index.unwrap()@, final(self).store@),
            final(self).store@ == old(self).store@,
            final(self).head == old(self).head,
            final(self).tail == old(self).tail,
            final(self).capacity == old(self).capacity,
            final(self).order == old(self).order,
    {
        let mut map: FxHashMap<K, u16> = FxHashMap::default();
        let mut i: usize = 0;
        while i < store_len(&self.store)
            invariant
                key_model::<K>(),
                distinct_keys(self.store@),
                self.store@.len() <= 0xFFFF,
                i <= self.store@.len(),
                indexes(map@, self.store@.take(i as int)),
            decreases self.store@.len() - i,
        {
            let key = clone_key(&store_entry(&self.store, i).key);
            let ghost before = map@;
            index_insert(&mut map, key, i as u16);
            proof {
                let so_far = self.store@.take(i as int);
                assert forall|j: int| 0 <= j < so_far.len() implies (#[trigger] so_far[j]).key
                    != key by {
                    assert(self.store@[j].key != self.store@[i as int].key);
                }
                lemma_push_index(before, so_far, self.store@.take(i as int + 1), key);
            }
            i += 1;
        }
        assert(self.store@.take(i as int) =~= self.store@);
        self.index = Some(map);
    }

    /// Append a new entry as the most recently used. The capacity is not
    /// looked at: the cache stays within it where it had room.
    fn insert(&mut self, key: K, value: V)
        requires
            old(self).linked(),
            !old(self)@.contains_key(key),
            old(self).slots().len() < 0xFFFF,
        ensures
            final(self).linked(),
            old(self)@.len() < at_least_one(old(self)@.capacity) ==> final(self).wf(),
            final(self)@ == (CacheView {
                entries: old(self)@.entries.push((key, value)),
                ..old(self)@
            }),
            final(self).positions() == old(self).positions().push(old(self)@.len() as u16),
    {
        let ghost order = self.order@;
        let ghost slots = self.store@;
        let ghost before = self@;
        let new_index = store_len(&self.store);
        proof {
            old(self).lemma_view_distinct();
            assert forall|i: int| 0 <= i < slots.len() implies (#[trigger] slots[i]).key
                != key by {
                old(self).lemma_rank_of_position(i);
            }
        }
        match &mut self.index {
            Some(index) => {
                let copy = clone_key(&key);
                index_insert(index, copy, new_index as u16);
            },
            None => {},
        }
        let entry = Entry { key: key, val: value, next: SENTINEL, prev: self.tail };
        store_push(&mut self.store, entry);
        proof {
            let grown = self.store@;
            assert forall|j: int| 0 <= j < order.len() implies #[trigger] node_linked(
                grown,
                order,
                j,
            ) by {
                assert(node_linked(slots, order, j));
            }
            assert(chained_in(grown, order, self.head, self.tail));
            lemma_attach(grown, order, self.head, self.tail, new_index as int);
        }
        self.attach_at_tail(new_index);
        self.order = Ghost(order.push(new_index as u16));
        proof {
            let after = self.store@;
            lemma_same_payload(slots.push(entry), after);
            assert(grown_by(slots, after, key)) by {
                assert forall|i: int| 0 <= i < slots.len() implies (#[trigger] after[i]).key
                    == slots[i].key by {
                    assert(after[i].key == slots.push(entry)[i].key);
                }
                assert(after[new_index as int].key == slots.push(entry)[new_index as int].key);
            }
            lemma_push_keys(slots, after, key);
            match old(self).index_map() {
                Some(was) => {
                    lemma_push_index(was, slots, after, key);
                },
                None => {},
            }
            let seen = self@.entries;
            let want = before.entries.push((key, value));
            assert(seen.len() == want.len());
            assert forall|j: int| 0 <= j < seen.len() implies seen[j] == want[j] by {
                if j < order.len() {
                    assert(self.order@[j] == order[j]);
                    assert((order[j] as int) < slots.len());
                    assert(after[order[j] as int].key == slots.push(entry)[order[j] as int].key);
                } else {
                    assert(after[new_index as int].key == slots.push(
                        entry,
                    )[new_index as int].key);
                }
            }
            assert(seen =~= want);
        }
    }

    /// Take the entry at `index` out of the store. The entry at the last
    /// position moves into the freed one; the links of the entry that left,
    /// captured before the move and redirected where they meant the last
    /// position, join its neighbours; then the chain and the hash index
    /// follow the entry that moved.
    fn remove_at(&mut self, index: usize) -> (removed: (K, V))
        requires
            old(self).wf(),
            index < old(self).slots().len(),
        ensures
            final(self).wf(),
            removed == (old(self).slots()[index as int].key, old(self).slots()[index as int].val),
            final(self)@ == (CacheView {
                entries: old(self)@.entries.remove(old(self).positions().index_of(index as u16)),
                ..old(self)@
            }),
            final(self).positions() == compacted(
                old(self).positions(),
                old(self).positions().index_of(index as u16),
            ),
    {
        let ghost order = self.order@;
        let ghost slots = self.store@;
        let ghost was = self.index_map();
        proof {
            self.lemma_rank_of_position(index as int);
        }
        let ghost r = order.index_of(index as u16);
        let last_index_before = store_len(&self.store) - 1;
        let removed_prev: u16 = store_entry(&self.store, index).prev;
        let removed_next: u16 = store_entry(&self.store, index).next;
        match &mut self.index {
            Some(map) => {
                index_remove(map, &store_entry(&self.store, index).key);
            },
            None => {},
        }
        let entry = store_swap_remove(&mut self.store, index);
        let ghost moved = self.store@;
        if store_len(&self.store) == 0 {
            self.head = SENTINEL;
            self.tail = SENTINEL;
            proof {
                assert(compacted(order, r) =~= Seq::<u16>::empty());
            }
        } else {
            let mut prev: u16 = removed_prev;
            let mut next: u16 = removed_next;
            if index < last_index_before {
                // The last entry moved into `index`: links to the old last
                // position now mean `index`.
                if prev as usize == last_index_before {
                    prev = index as u16;
                }
                if next as usize == last_index_before {
                    next = index as u16;
                }
            }
            proof {
                assert(node_linked(slots, order, r));
                lemma_remove(slots, order, self.head, self.tail, r);
            }
            self.remove_from_dll(index, prev, next);
            if index < store_len(&self.store) {
                self.update_swapped_element_index(index);
                match &mut self.index {
                    Some(map) => {
                        let swapped_key = clone_key(&store_entry(&self.store, index).key);
                        proof {
                            lemma_same_payload(moved, self.store@);
                        }
                        index_insert(map, swapped_key, index as u16);
                    },
                    None => {},
                }
            }
        }
        self.order = Ghost(compacted(order, r));
        proof {
            lemma_compact_of(slots, self.store@, index as int);
            lemma_compact_keys(slots, self.store@, index as int);
            lemma_compact_view(slots, self.store@, order, r);
            match was {
                Some(w) => {
                    lemma_compact_index(w, slots, self.store@, index as int);
                    assert(self.index_map() == Some(compacted_index(w, slots, index as int)));
                },
                None => {},
            }
        }
        (entry.key, entry.val)
    }

    /// Join the neighbours `prev` and `next` of the entry at `_index` to each
    /// other, so that the chain passes it by.
    fn remove_from_dll(&mut self, _index: usize, prev: u16, next: u16)
        requires
            prev == SENTINEL || (prev as int) < old(self).store@.len(),
            next == SENTINEL || (next as int) < old(self).store@.len(),
        ensures
            final(self).store@ == unlinked(old(self).store@, prev, next),
            final(self).head == (if prev == SENTINEL { next } else { old(self).head }),
            final(self).tail == (if next == SENTINEL { prev } else { old(self).tail }),
            final(self).index == old(self).index,
            final(self).capacity == old(self).capacity,
            final(self).order == old(self).order,
    {
        if prev != SENTINEL {
            let slot = store_entry_mut(&mut self.store, prev as usize);
            slot.next = next;
        } else {
            self.head = next;
        }
        if next != SENTINEL {
            let slot = store_entry_mut(&mut self.store, next as usize);
            slot.prev = prev;
        } else {
            self.tail = prev;
        }
        assert(self.store@ =~= unlinked(old(self).store@, prev, next));
    }

    /// Link the entry at `index` behind the current tail.
    fn attach_at_tail(&mut self, index: usize)
        requires
            index < old(self).store@.len() <= 0xFFFF,
            old(self).tail == SENTINEL || (old(self).tail as int) < old(self).store@.len(),
        ensures
            final(self).store@ == attached(old(self).store@, old(self).tail, index as int),
            final(self).head == (if old(self).tail == SENTINEL {
                index as u16
            } else {
                old(self).head
            }),
            final(self).tail == index as u16,
            final(self).index == old(self).index,
            final(self).capacity == old(self).capacity,
            final(self).order == old(self).order,
    {
        let old_tail: u16 = self.tail;
        let slot = store_entry_mut(&mut self.store, index);
        slot.prev = old_tail;
        slot.next = SENTINEL;
        if old_tail != SENTINEL {
            let slot = store_entry_mut(&mut self.store, old_tail as usize);
            slot.next = index as u16;
        } else {
            self.head = index as u16;
        }
        self.tail = index as u16;
        assert(self.store@ =~= attached(old(self).store@, old(self).tail, index as int));
    }

    /// Point the neighbours of the entry that now lives at `new_index` at it.
    fn update_swapped_element_index(&mut self, new_index: usize)
        requires
            new_index < old(self).store@.len() <= 0xFFFF,
            ({
                let e = old(self).store@[new_index as int];
                &&& e.prev == SENTINEL || (e.prev as int) < old(self).store@.len()
                &&& e.next == SENTINEL || (e.next as int) < old(self).store@.len()
            }),
        ensures
            final(self).store@ == relinked(old(self).store@, new_index as int),
            final(self).head == (if old(self).store@[new_index as int].prev == SENTINEL {
                new_index as u16
            } else {
                old(self).head
            }),
            final(self).tail == (if old(self).store@[new_index as int].next == SENTINEL {
                new_index as u16
            } else {
                old(self).tail
            }),
            final(self).index == old(self).index,
            final(self).capacity == old(self).capacity,
            final(self).order == old(self).order,
    {
        let prev: u16 = store_entry(&self.store, new_index).prev;
        let next: u16 = store_entry(&self.store, new_index).next;
        if prev != SENTINEL {
            let slot = store_entry_mut(&mut self.store, prev as usize);
            slot.next = new_index as u16;
        } else {
            self.head = new_index as u16;
        }
        if next != SENTINEL {
            let slot = store_entry_mut(&mut self.store, next as usize);
            slot.prev = new_index as u16;
        } else {
            self.tail = new_index as u16;
        }
        assert(self.store@ =~= relinked(old(self).store@, new_index as int));
    }
}

impl<K: Eq + Hash + Default + Clone, V: Default + Clone, const N: usize> Clone for TinyLru<
    K,
    V,
    N,
> {
    /// A second cache with the same keys in the same order and positions,
    /// each value a clone of the value it stands for. An inline size that
    /// no cache can have gives an empty copy.
    fn clone(&self) -> (copy: Self)
        ensures
            self.wf() ==> {
                &&& copy.wf()
                &&& copy.positions() == self.positions()
                &&& copy@.capacity == self@.capacity
                &&& copy@.spilled == self@.spilled
                &&& copy@.entries.len() == self@.entries.len()
                &&& forall|j: int|
                    0 <= j < self@.entries.len() ==> (#[trigger] copy@.entries[j]).0
                        == self@.entries[j].0 && cloned(self@.entries[j].1, copy@.entries[j].1)
            },
    {
        if N > 0xFFFF {
            return Self {
                store: store_new(),
                head: SENTINEL,
                tail: SENTINEL,
                index: None,
                capacity: self.capacity,
                order: Ghost(Seq::empty()),
            };
        }
        let mut store: Store<K, V, N> = store_new();
        let mut i: usize = 0;
        while i < store_len(&self.store)
            invariant
                N <= 0xFFFF,
                i <= self.store@.len(),
                store@.len() == i,
                forall|k: int|
                    0 <= k < i ==> cloned(self.store@[k].key, (#[trigger] store@[k]).key) && cloned(
                        self.store@[k].val,
                        store@[k].val,
                    ) && store@[k].next == self.store@[k].next && store@[k].prev
                        == self.store@[k].prev,
            decreases self.store@.len() - i,
        {
            let entry = store_entry(&self.store, i);
            let copied = Entry {
                key: entry.key.clone(),
                val: entry.val.clone(),
                next: entry.next,
                prev: entry.prev,
            };
            store_push(&mut store, copied);
            i += 1;
        }
        let index = match &self.index {
            Some(map) => Some(map.clone()),
            None => None,
        };
        let copy = Self {
            store,
            head: self.head,
            tail: self.tail,
            index,
            capacity: self.capacity,
            order: Ghost(self.order@),
        };
        proof {
            if self.wf() {
                assert forall|k: int| 0 <= k < self.store@.len() implies (#[trigger] copy.store@[k]).key
                    == self.store@[k].key by {
                    assert(cloned(self.store@[k].key, copy.store@[k].key));
                }
                self.lemma_values_changed(&copy);
                assert forall|j: int| 0 <= j < self@.entries.len() implies (
                #[trigger] copy@.entries[j]).0 == self@.entries[j].0 && cloned(
                    self@.entries[j].1,
                    copy@.entries[j].1,
                ) by {
                    let q = self.order@[j] as int;
                    assert(cloned(self.store@[q].val, copy.store@[q].val));
                }
            }
        }
        copy
    }
}

impl<K: Eq + Hash + Default + Clone, V: Default, const N: usize> TinyLru<K, V, N> {
    /// A cache of capacity 1 or more never holds more than its capacity.
    /// (At capacity 0 the entry pushed last stays, so the size may be 1.)
    pub proof fn lemma_size_bound(&self)
        requires
            self.wf(),
            self@.capacity >= 1,
        ensures
            self@.len() <= self@.capacity <= MAX_CAPACITY,
            self@.len() == self.slots().len(),
            self@.len() == self.positions().len(),
    {
        self.lemma_view_distinct();
    }

    /// The recency chain, position by position: `head` and `tail` are the
    /// sentinel exactly when the cache is empty and valid positions
    /// otherwise; the head has no predecessor and the tail no successor;
    /// neighbours point at each other.
    pub proof fn lemma_linkage(&self)
        requires
            self.wf(),
        ensures
            (self.head_link() == SENTINEL) == (self@.len() == 0),
            (self.tail_link() == SENTINEL) == (self@.len() == 0),
            self@.len() > 0 ==> (self.head_link() as int) < self@.len() && (self.tail_link() as int)
                < self@.len(),
            self@.len() > 0 ==> self.slots()[self.head_link() as int].prev == SENTINEL
                && self.slots()[self.tail_link() as int].next == SENTINEL,
            forall|i: int|
                0 <= i < self@.len() && (#[trigger] self.slots()[i]).next != SENTINEL ==> (
                self.slots()[i].next as int) < self@.len()
                    && self.slots()[self.slots()[i].next as int].prev == i,
            forall|i: int|
                0 <= i < self@.len() && (#[trigger] self.slots()[i]).prev != SENTINEL ==> (
                self.slots()[i].prev as int) < self@.len()
                    && self.slots()[self.slots()[i].prev as int].next == i,
    {
        self.lemma_view_distinct();
        lemma_chain_shape(self.store@, self.order@, self.head, self.tail);
    }

    /// Where there is a hash index, it is a bijection between the live keys
    /// and their positions.
    pub proof fn lemma_index_bijection(&self)
        requires
            self.wf(),
            self@.spilled,
        ensures
            self.index_map() is Some,
            indexes(self.index_map().unwrap(), self.slots()),
            self.index_map().unwrap().dom().finite(),
            self.index_map().unwrap().dom().len() == self@.len(),
    {
        self.lemma_view_distinct();
        lemma_index_len(self.index_map().unwrap(), self.store@);
    }

    /// No key is live twice.
    pub proof fn lemma_view_distinct(&self)
        requires
            self.linked(),
        ensures
            self@.distinct(),
            self@.len() == self.slots().len(),
            self@.len() == self.positions().len(),
    {
        let entries = self@.entries;
        assert forall|i: int, j: int| 0 <= i < j < entries.len() implies (#[trigger] entries[i]).0
            != (#[trigger] entries[j]).0 by {
            let a = self.order@[i] as int;
            let b = self.order@[j] as int;
            assert(self.order@[i] != self.order@[j]);
            if a < b {
                assert(self.store@[a].key != self.store@[b].key);
            } else {
                assert(self.store@[b].key != self.store@[a].key);
            }
        }
    }

    /// The entry at position `i` is the one of rank `positions().index_of(i)`,
    /// and its key has that rank in the view.
    pub proof fn lemma_rank_of_position(&self, i: int)
        requires
            self.linked(),
            0 <= i < self.slots().len(),
        ensures
            ({
                let r = self.positions().index_of(i as u16);
                &&& 0 <= r < self@.len()
                &&& self.positions()[r] == i
                &&& self@.entries[r] == (self.slots()[i].key, self.slots()[i].val)
                &&& self@.contains_key(self.slots()[i].key)
                &&& self@.rank(self.slots()[i].key) == r
            }),
    {
        lemma_rank_exists(self.order@, i as u16);
        let r = self.order@.index_of(i as u16);
        self.lemma_view_distinct();
        let key = self.store@[i].key;
        assert(self@.entries[r].0 == key);
        let q = self@.rank(key);
        if q < r {
            assert(self@.entries[q].0 != self@.entries[r].0);
        } else if r < q {
            assert(self@.entries[r].0 != self@.entries[q].0);
        }
    }

    /// A key that no position holds is not live.
    pub proof fn lemma_absent(&self, key: K)
        requires
            self.linked(),
            forall|i: int| 0 <= i < self.slots().len() ==> (#[trigger] self.slots()[i]).key != key,
        ensures
            !self@.contains_key(key),
    {
        if self@.contains_key(key) {
            let r = self@.rank(key);
            let i = self.order@[r] as int;
            assert(self.store@[i].key != key);
        }
    }
}

impl<K: Eq + Hash + Default + Clone, V: Default, const N: usize> TinyLru<K, V, N> {
    /// `to` has the keys, links and lookup state of this cache; its values
    /// may be others.
    spec fn same_but_values(&self, to: &Self) -> bool {
        &&& to.store@.len() == self.store@.len()
        &&& forall|i: int|
            0 <= i < self.store@.len() ==> (#[trigger] to.store@[i]).key == self.store@[i].key
                && to.store@[i].next == self.store@[i].next && to.store@[i].prev
                == self.store@[i].prev
        &&& to.head == self.head
        &&& to.tail == self.tail
        &&& to.index_map() == self.index_map()
        &&& to.capacity == self.capacity
        &&& to.order == self.order
    }

    /// A cache that differs from a well-formed one in its values only is
    /// well-formed, with the same keys at the same ranks and positions.
    proof fn lemma_values_changed(&self, to: &Self)
        requires
            self.wf(),
            self.same_but_values(to),
        ensures
            to.wf(),
            to.positions() == self.positions(),
            to@.capacity == self@.capacity,
            to@.spilled == self@.spilled,
            to@.entries.len() == self@.entries.len(),
            forall|j: int|
                0 <= j < self@.entries.len() ==> (#[trigger] to@.entries[j]) == (
                    self@.entries[j].0,
                    to.store@[self.order@[j] as int].val,
                ),
    {
        let order = self.order@;
        assert forall|j: int| 0 <= j < order.len() implies #[trigger] node_linked(
            to.store@,
            order,
            j,
        ) by {
            assert(node_linked(self.store@, order, j));
        }
        assert forall|i: int, j: int| 0 <= i < j < to.store@.len() implies (#[trigger] to.store@[i]).key
            != (#[trigger] to.store@[j]).key by {
            assert(self.store@[i].key != self.store@[j].key);
        }
        match self.index_map() {
            Some(m) => {
                assert forall|i: int| 0 <= i < to.store@.len() implies m.contains_key(
                    (#[trigger] to.store@[i]).key,
                ) && m[to.store@[i].key] == i by {
                    assert(m.contains_key(self.store@[i].key));
                }
                assert forall|k: K| #[trigger] m.contains_key(k) implies (m[k] as int)
                    < to.store@.len() && to.store@[m[k] as int].key == k by {
                    assert(to.store@[m[k] as int].key == self.store@[m[k] as int].key);
                }
            },
            None => {},
        }
        assert forall|j: int| 0 <= j < self@.entries.len() implies (#[trigger] to@.entries[j]) == (
            self@.entries[j].0,
            to.store@[self.order@[j] as int].val,
        ) by {
            let q = order[j] as int;
            assert(to.store@[q].key == self.store@[q].key);
        }
    }

    /// `to` is this cache but for the value at position `index`.
    spec fn value_differs(&self, to: &Self, index: int) -> bool {
        &&& to.store@ == self.store@.update(
            index,
            Entry {
                key: self.store@[index].key,
                val: to.store@[index].val,
                next: self.store@[index].next,
                prev: self.store@[index].prev,
            },
        )
        &&& to.head == self.head
        &&& to.tail == self.tail
        &&& to.index == self.index
        &&& to.capacity == self.capacity
        &&& to.order == self.order
    }

    /// A cache that differs from a well-formed one in the value at one
    /// position only is well-formed, and shows the new value at that entry's
    /// rank.
    proof fn lemma_value_changed(&self, to: &Self, index: int)
        requires
            self.wf(),
            0 <= index < self.store@.len(),
            self.value_differs(to, index),
        ensures
            to.wf(),
            to.positions() == self.positions(),
            to@ == (CacheView {
                entries: self@.entries.update(
                    self.positions().index_of(index as u16),
                    (self.store@[index].key, to.store@[index].val),
                ),
                ..self@
            }),
    {
        self.lemma_rank_of_position(index);
        let r = self.order@.index_of(index as u16);
        let order = self.order@;
        self.lemma_values_changed(to);
        let seen = to@.entries;
        let want = self@.entries.update(r, (self.store@[index].key, to.store@[index].val));
        assert forall|j: int| 0 <= j < seen.len() implies seen[j] == want[j] by {
            if j != r {
                if j < r {
                    assert(order[j] != order[r]);
                } else {
                    assert(order[r] != order[j]);
                }
            }
        }
        assert(seen =~= want);
    }

    /// Reading the same keys and values in the order with rank `r` moved to
    /// the end.
    proof fn lemma_promoted_view(&self, slots: Seq<Entry<K, V>>, order: Seq<u16>, r: int)
        requires
            0 <= r < order.len(),
            forall|j: int| 0 <= j < order.len() ==> (#[trigger] order[j] as int) < slots.len(),
            slots.len() == self.store@.len(),
            forall|i: int|
                0 <= i < slots.len() ==> (#[trigger] self.store@[i]).key == slots[i].key
                    && self.store@[i].val == slots[i].val,
        ensures
            recency(self.store@, promoted(order, r)) == promoted(recency(slots, order), r),
    {
        let a = recency(self.store@, promoted(order, r));
        let b = promoted(recency(slots, order), r);
        assert(a.len() == b.len());
        assert forall|j: int| 0 <= j < a.len() implies a[j] == b[j] by {
            let j0 = if j < r { j } else if j < order.len() - 1 { j + 1 } else { r };
            assert(promoted(order, r)[j] == order[j0]);
            assert(b[j] == recency(slots, order)[j0]);
            assert((order[j0] as int) < slots.len());
        }
        assert(a =~= b);
    }
}

} // verus!
