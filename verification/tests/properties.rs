use tiny_lru::Entry;
use tiny_lru::TinyLru;
use tiny_lru::MAX_CAPACITY;
use tiny_lru::SENTINEL;

// Walks the chain from the head and returns the keys, least recently used first.
fn keys_in_recency_order<const N: usize>(cache: &TinyLru<&'static str, i32, N>) -> Vec<&'static str> {
    let mut keys = Vec::new();
    let mut current = cache.head();
    while current != SENTINEL {
        let entry = cache.entry(current as usize);
        keys.push(entry.key);
        current = entry.next;
    }
    keys
}

// Checks the structural invariants of a cache through its public surface.
fn check_invariants<const N: usize>(cache: &TinyLru<&'static str, i32, N>) {
    let len = cache.len() as usize;
    if cache.capacity() >= 1 {
        assert!(cache.len() <= cache.capacity());
    }
    assert_eq!(cache.head() == SENTINEL, len == 0);
    assert_eq!(cache.tail() == SENTINEL, len == 0);
    if len > 0 {
        assert!((cache.head() as usize) < len);
        assert!((cache.tail() as usize) < len);
        assert_eq!(cache.entry(cache.head() as usize).prev, SENTINEL);
        assert_eq!(cache.entry(cache.tail() as usize).next, SENTINEL);
    }
    for i in 0..len {
        let entry = cache.entry(i);
        if entry.next != SENTINEL {
            assert_eq!(cache.entry(entry.next as usize).prev, i as u16);
        }
        if entry.prev != SENTINEL {
            assert_eq!(cache.entry(entry.prev as usize).next, i as u16);
        }
        assert_eq!(cache.find_key_index(&entry.key), Some(i));
        if cache.is_spilled() {
            assert_eq!(cache.index_position(&entry.key), Some(i as u16));
        } else {
            assert_eq!(cache.index_position(&entry.key), None);
        }
    }
    assert_eq!(keys_in_recency_order(cache).len(), len);
    if cache.is_spilled() {
        assert_eq!(cache.index_len(), Some(len));
    } else {
        assert_eq!(cache.index_len(), None);
    }
}

#[test]
fn constants_reserve_the_sentinel() {
    assert_eq!(SENTINEL, u16::MAX);
    assert_eq!(MAX_CAPACITY, u16::MAX - 1);
}

#[test]
fn entry_default_is_unlinked_zero() {
    let entry: Entry<i32, i32> = Entry::default();
    assert_eq!(entry.key, 0);
    assert_eq!(entry.val, 0);
    assert_eq!(entry.next, 0);
    assert_eq!(entry.prev, 0);
    let copy = entry.clone();
    assert_eq!(copy.key, 0);
}

#[test]
fn invariants_hold_after_every_call() {
    let mut cache: TinyLru<&'static str, i32, 2> = TinyLru::with_capacity(4);
    check_invariants(&cache);
    cache.push("a", 1);
    check_invariants(&cache);
    cache.push("b", 2);
    check_invariants(&cache);
    cache.push("c", 3);
    check_invariants(&cache);
    assert_eq!(cache.get(&"a"), Some(&1));
    check_invariants(&cache);
    cache.push("d", 4);
    check_invariants(&cache);
    cache.push("e", 5);
    check_invariants(&cache);
    assert_eq!(cache.remove(&"c"), Some(("c", 3)));
    check_invariants(&cache);
    assert_eq!(cache.pop(), Some(("a", 1)));
    check_invariants(&cache);
    cache.set_capacity(3);
    check_invariants(&cache);
    assert!(cache.unspill());
    check_invariants(&cache);
    cache.push("f", 6);
    check_invariants(&cache);
    cache.clear();
    check_invariants(&cache);
}

#[test]
fn pops_come_in_insertion_order() {
    let mut cache: TinyLru<&'static str, i32, 2> = TinyLru::with_capacity(5);
    cache.push("a", 1);
    cache.push("b", 2);
    cache.push("c", 3);
    cache.push("d", 4);
    cache.push("e", 5);
    assert_eq!(cache.pop(), Some(("a", 1)));
    assert_eq!(cache.pop(), Some(("b", 2)));
    assert_eq!(cache.pop(), Some(("c", 3)));
    assert_eq!(cache.pop(), Some(("d", 4)));
    assert_eq!(cache.pop(), Some(("e", 5)));
    assert_eq!(cache.pop(), None);
}

#[test]
fn pops_come_in_insertion_order_after_eviction() {
    let mut cache: TinyLru<&'static str, i32, 3> = TinyLru::new();
    cache.push("a", 1);
    cache.push("b", 2);
    cache.push("c", 3);
    cache.push("d", 4);
    cache.push("e", 5);
    assert_eq!(cache.len(), 3);
    assert_eq!(cache.pop(), Some(("c", 3)));
    assert_eq!(cache.pop(), Some(("d", 4)));
    assert_eq!(cache.pop(), Some(("e", 5)));
    assert_eq!(cache.pop(), None);
}

#[test]
fn get_moves_key_to_most_recent() {
    let mut cache: TinyLru<&'static str, i32, 4> = TinyLru::new();
    cache.push("a", 1);
    cache.push("b", 2);
    cache.push("c", 3);
    assert_eq!(cache.get(&"a"), Some(&1));
    assert_eq!(keys_in_recency_order(&cache), vec!["b", "c", "a"]);
    assert_eq!(cache.pop(), Some(("b", 2)));
    assert_eq!(cache.pop(), Some(("c", 3)));
    assert_eq!(cache.get(&"a"), Some(&1));
    assert_eq!(cache.pop(), Some(("a", 1)));
}

#[test]
fn get_mut_moves_key_and_writes_value() {
    let mut cache: TinyLru<&'static str, i32, 4> = TinyLru::new();
    cache.push("a", 1);
    cache.push("b", 2);
    cache.push("c", 3);
    match cache.get_mut(&"b") {
        Some(value) => {
            assert_eq!(*value, 2);
            *value = 20;
        }
        None => panic!("b is live"),
    }
    assert_eq!(keys_in_recency_order(&cache), vec!["a", "c", "b"]);
    assert_eq!(cache.peek(&"b"), Some(&20));
    assert_eq!(cache.len(), 3);
    assert_eq!(cache.get_mut(&"z"), None);
    assert_eq!(keys_in_recency_order(&cache), vec!["a", "c", "b"]);
}

#[test]
fn peek_leaves_pop_order_alone() {
    let mut peeked: TinyLru<&'static str, i32, 2> = TinyLru::with_capacity(4);
    let mut plain: TinyLru<&'static str, i32, 2> = TinyLru::with_capacity(4);
    for (key, value) in [("a", 1), ("b", 2), ("c", 3)] {
        peeked.push(key, value);
        plain.push(key, value);
    }
    assert_eq!(peeked.peek(&"a"), Some(&1));
    assert_eq!(peeked.peek(&"c"), Some(&3));
    assert_eq!(peeked.peek(&"z"), None);
    assert_eq!(peeked.pop(), plain.pop());
    assert_eq!(peeked.pop(), plain.pop());
    assert_eq!(peeked.pop(), plain.pop());
    assert_eq!(peeked.pop(), None);
}

#[test]
fn push_of_live_key_updates_in_place() {
    let mut cache: TinyLru<&'static str, i32, 4> = TinyLru::new();
    cache.push("a", 1);
    cache.push("b", 2);
    cache.push("a", 10);
    assert_eq!(cache.len(), 2);
    assert_eq!(cache.get(&"a"), Some(&10));
    assert_eq!(keys_in_recency_order(&cache), vec!["b", "a"]);
}

#[test]
fn spill_happens_at_key_n_plus_one_and_stays() {
    let mut cache: TinyLru<&'static str, i32, 2> = TinyLru::with_capacity(4);
    cache.push("a", 1);
    assert!(!cache.is_spilled());
    cache.push("b", 2);
    assert!(!cache.is_spilled());
    cache.push("a", 10);
    assert!(!cache.is_spilled());
    cache.push("c", 3);
    assert!(cache.is_spilled());
    assert_eq!(cache.remove(&"b"), Some(("b", 2)));
    assert!(cache.is_spilled());
    assert_eq!(cache.pop(), Some(("a", 10)));
    assert_eq!(cache.pop(), Some(("c", 3)));
    assert_eq!(cache.pop(), None);
    assert!(cache.is_spilled());
    assert_eq!(cache.index_len(), Some(0));
    cache.clear();
    assert!(!cache.is_spilled());
}

#[test]
fn no_spill_when_capacity_equals_inline_size() {
    let mut cache: TinyLru<&'static str, i32, 2> = TinyLru::new();
    cache.push("a", 1);
    cache.push("b", 2);
    cache.push("c", 3);
    cache.push("d", 4);
    assert!(!cache.is_spilled());
    assert!(!cache.can_unspill());
    assert!(!cache.unspill());
    assert_eq!(keys_in_recency_order(&cache), vec!["c", "d"]);
}

#[test]
fn unspill_keeps_pairs_and_order() {
    let mut cache: TinyLru<&'static str, i32, 3> = TinyLru::with_capacity(5);
    cache.push("a", 1);
    cache.push("b", 2);
    cache.push("c", 3);
    cache.push("d", 4);
    assert!(cache.is_spilled());
    assert!(!cache.can_unspill());
    assert!(!cache.unspill());
    assert!(cache.is_spilled());
    assert_eq!(cache.get(&"a"), Some(&1));
    assert_eq!(cache.remove(&"c"), Some(("c", 3)));
    let before = keys_in_recency_order(&cache);
    assert_eq!(before, vec!["b", "d", "a"]);
    assert!(cache.can_unspill());
    assert!(cache.unspill());
    assert!(!cache.is_spilled());
    assert_eq!(cache.index_len(), None);
    assert_eq!(keys_in_recency_order(&cache), before);
    assert_eq!(cache.peek(&"b"), Some(&2));
    assert_eq!(cache.peek(&"d"), Some(&4));
    assert_eq!(cache.peek(&"a"), Some(&1));
    assert_eq!(cache.capacity(), 5);
    assert_eq!(cache.pop(), Some(("b", 2)));
    assert_eq!(cache.pop(), Some(("d", 4)));
    assert_eq!(cache.pop(), Some(("a", 1)));
}

#[test]
fn eviction_puts_out_the_oldest() {
    let mut cache: TinyLru<&'static str, i32, 3> = TinyLru::new();
    cache.push("a", 1);
    cache.push("b", 2);
    cache.push("c", 3);
    cache.push("d", 4);
    assert!(!cache.contains_key(&"a"));
    assert!(cache.contains_key(&"b"));
    assert!(cache.contains_key(&"c"));
    assert!(cache.contains_key(&"d"));
    assert_eq!(cache.len(), 3);
}

#[test]
fn spill_then_promote_then_pop() {
    let mut cache: TinyLru<&'static str, i32, 3> = TinyLru::with_capacity(4);
    cache.push("a", 1);
    cache.push("b", 2);
    cache.push("c", 3);
    assert!(!cache.is_spilled());
    assert_eq!(cache.len(), 3);
    cache.push("d", 4);
    assert!(cache.is_spilled());
    assert_eq!(cache.len(), 4);
    assert_eq!(cache.get(&"b"), Some(&2));
    assert_eq!(cache.pop(), Some(("a", 1)));
    assert_eq!(cache.pop(), Some(("c", 3)));
    assert_eq!(cache.pop(), Some(("d", 4)));
    assert_eq!(cache.pop(), Some(("b", 2)));
}

#[test]
fn inline_size_one_keeps_the_last_key() {
    let mut cache: TinyLru<&'static str, i32, 1> = TinyLru::with_capacity(1);
    cache.push("a", 1);
    cache.push("b", 2);
    assert_eq!(cache.len(), 1);
    assert!(!cache.contains_key(&"a"));
    assert_eq!(cache.peek(&"b"), Some(&2));
    assert!(!cache.is_spilled());
}

#[test]
fn capacity_zero_keeps_the_last_key() {
    let mut cache: TinyLru<&'static str, i32, 0> = TinyLru::new();
    assert_eq!(cache.capacity(), 0);
    cache.push("a", 1);
    assert_eq!(cache.len(), 1);
    cache.push("b", 2);
    assert_eq!(cache.len(), 1);
    assert!(!cache.contains_key(&"a"));
    assert_eq!(cache.peek(&"b"), Some(&2));
    assert!(!cache.is_spilled());
    check_invariants(&cache);
}

#[test]
fn inline_size_zero_spills_on_first_key() {
    let mut cache: TinyLru<&'static str, i32, 0> = TinyLru::with_capacity(2);
    assert!(!cache.is_spilled());
    cache.push("a", 1);
    assert!(cache.is_spilled());
    cache.push("b", 2);
    cache.push("c", 3);
    assert_eq!(keys_in_recency_order(&cache), vec!["b", "c"]);
    check_invariants(&cache);
}

#[test]
fn removal_moves_the_last_entry_into_the_gap() {
    let mut cache: TinyLru<&'static str, i32, 4> = TinyLru::new();
    cache.push("a", 1);
    cache.push("b", 2);
    cache.push("c", 3);
    cache.push("d", 4);
    assert_eq!(cache.find_key_index(&"d"), Some(3));
    assert_eq!(cache.remove(&"b"), Some(("b", 2)));
    assert_eq!(cache.find_key_index(&"a"), Some(0));
    assert_eq!(cache.find_key_index(&"d"), Some(1));
    assert_eq!(cache.find_key_index(&"c"), Some(2));
    assert_eq!(cache.find_key_index(&"b"), None);
    assert_eq!(cache.entry(1).key, "d");
    assert_eq!(cache.entry(1).val, 4);
    assert_eq!(cache.entry(1).prev, 2);
    assert_eq!(cache.entry(1).next, SENTINEL);
    assert_eq!(cache.head(), 0);
    assert_eq!(cache.tail(), 1);
    assert_eq!(keys_in_recency_order(&cache), vec!["a", "c", "d"]);
}

#[test]
fn removal_of_the_last_position_moves_nothing() {
    let mut cache: TinyLru<&'static str, i32, 4> = TinyLru::new();
    cache.push("a", 1);
    cache.push("b", 2);
    cache.push("c", 3);
    assert_eq!(cache.remove(&"c"), Some(("c", 3)));
    assert_eq!(cache.find_key_index(&"a"), Some(0));
    assert_eq!(cache.find_key_index(&"b"), Some(1));
    assert_eq!(cache.head(), 0);
    assert_eq!(cache.tail(), 1);
}

#[test]
fn pop_moves_the_last_entry_to_the_front_position() {
    let mut cache: TinyLru<&'static str, i32, 2> = TinyLru::with_capacity(4);
    cache.push("a", 1);
    cache.push("b", 2);
    cache.push("c", 3);
    assert_eq!(cache.pop(), Some(("a", 1)));
    assert_eq!(cache.find_key_index(&"c"), Some(0));
    assert_eq!(cache.index_position(&"c"), Some(0));
    assert_eq!(cache.index_position(&"b"), Some(1));
    assert_eq!(cache.index_position(&"a"), None);
    assert_eq!(cache.head(), 1);
    assert_eq!(cache.tail(), 0);
}

#[test]
fn index_follows_every_change() {
    let mut cache: TinyLru<&'static str, i32, 1> = TinyLru::with_capacity(3);
    cache.push("a", 1);
    assert_eq!(cache.index_position(&"a"), None);
    assert_eq!(cache.index_len(), None);
    cache.push("b", 2);
    assert_eq!(cache.index_position(&"a"), Some(0));
    assert_eq!(cache.index_position(&"b"), Some(1));
    assert_eq!(cache.index_len(), Some(2));
    cache.push("c", 3);
    assert_eq!(cache.index_position(&"c"), Some(2));
    assert_eq!(cache.index_len(), Some(3));
    cache.push("d", 4);
    assert_eq!(cache.index_position(&"a"), None);
    assert_eq!(cache.index_position(&"c"), Some(0));
    assert_eq!(cache.index_position(&"d"), Some(2));
    assert_eq!(cache.index_len(), Some(3));
    assert_eq!(cache.remove(&"c"), Some(("c", 3)));
    assert_eq!(cache.index_position(&"c"), None);
    assert_eq!(cache.index_position(&"d"), Some(0));
    assert_eq!(cache.index_len(), Some(2));
}

#[test]
fn promote_to_mru_reorders_without_moving() {
    let mut cache: TinyLru<&'static str, i32, 4> = TinyLru::new();
    cache.push("a", 1);
    cache.push("b", 2);
    cache.push("c", 3);
    cache.promote_to_mru(1);
    assert_eq!(keys_in_recency_order(&cache), vec!["a", "c", "b"]);
    assert_eq!(cache.find_key_index(&"b"), Some(1));
    cache.promote_to_mru(1);
    assert_eq!(keys_in_recency_order(&cache), vec!["a", "c", "b"]);
    cache.promote_to_mru(0);
    assert_eq!(keys_in_recency_order(&cache), vec!["c", "b", "a"]);
    assert_eq!(cache.head(), 2);
    assert_eq!(cache.tail(), 0);
}

#[test]
fn set_capacity_changes_the_ceiling_only() {
    let mut cache: TinyLru<&'static str, i32, 2> = TinyLru::with_capacity(3);
    cache.push("a", 1);
    cache.push("b", 2);
    cache.set_capacity(10);
    assert_eq!(cache.capacity(), 10);
    assert_eq!(cache.len(), 2);
    assert!(!cache.is_spilled());
    cache.push("c", 3);
    cache.push("d", 4);
    assert_eq!(cache.len(), 4);
    cache.set_capacity(5);
    assert_eq!(cache.capacity(), 5);
    cache.push("e", 5);
    cache.push("f", 6);
    assert_eq!(cache.len(), 5);
    assert_eq!(keys_in_recency_order(&cache), vec!["b", "c", "d", "e", "f"]);
}

#[test]
fn respill_after_shrinking_to_inline_size() {
    let mut cache: TinyLru<&'static str, i32, 2> = TinyLru::with_capacity(4);
    cache.push("a", 1);
    cache.push("b", 2);
    cache.push("c", 3);
    assert_eq!(cache.pop(), Some(("a", 1)));
    assert!(cache.unspill());
    assert!(!cache.is_spilled());
    cache.push("d", 4);
    assert!(cache.is_spilled());
    assert_eq!(keys_in_recency_order(&cache), vec!["b", "c", "d"]);
    check_invariants(&cache);
}

#[test]
fn largest_capacity_is_accepted() {
    let cache: TinyLru<&'static str, i32, 2> = TinyLru::with_capacity(MAX_CAPACITY);
    assert_eq!(cache.capacity(), MAX_CAPACITY);
    assert_eq!(cache.len(), 0);
}

#[test]
fn capacity_limit_holds_for_small_inline_size() {
    tiny_lru::assert_capacity_limit::<4>();
    tiny_lru::assert_capacity_limit::<65534>();
}

#[test]
fn lookup_of_absent_key_changes_nothing() {
    let mut cache: TinyLru<&'static str, i32, 4> = TinyLru::new();
    cache.push("a", 1);
    cache.push("b", 2);
    assert_eq!(cache.get(&"z"), None);
    assert_eq!(cache.remove(&"z"), None);
    assert_eq!(cache.find_key_index(&"z"), None);
    assert!(!cache.contains_key(&"z"));
    assert_eq!(keys_in_recency_order(&cache), vec!["a", "b"]);
    assert_eq!(cache.len(), 2);
}

#[test]
fn clone_is_a_cache_of_its_own() {
    let mut cache: TinyLru<&'static str, i32, 2> = TinyLru::with_capacity(4);
    cache.push("a", 1);
    cache.push("b", 2);
    cache.push("c", 3);
    assert_eq!(cache.get(&"a"), Some(&1));
    let mut copy = cache.clone();
    assert_eq!(copy.len(), 3);
    assert_eq!(copy.capacity(), 4);
    assert!(copy.is_spilled());
    assert_eq!(keys_in_recency_order(&copy), vec!["b", "c", "a"]);
    check_invariants(&copy);
    assert_eq!(copy.pop(), Some(("b", 2)));
    copy.push("d", 4);
    assert_eq!(keys_in_recency_order(&copy), vec!["c", "a", "d"]);
    assert_eq!(keys_in_recency_order(&cache), vec!["b", "c", "a"]);
    assert_eq!(cache.peek(&"b"), Some(&2));
    assert_eq!(cache.peek(&"d"), None);
    check_invariants(&cache);
}

// A plain list of pairs, least recently used first, driven by the same calls.
struct Shadow {
    pairs: Vec<(&'static str, i32)>,
    capacity: usize,
    spilled: bool,
}

impl Shadow {
    fn find(&self, key: &'static str) -> Option<usize> {
        self.pairs.iter().position(|pair| pair.0 == key)
    }

    fn push(&mut self, inline: usize, key: &'static str, value: i32) {
        if let Some(rank) = self.find(key) {
            self.pairs.remove(rank);
            self.pairs.push((key, value));
            return;
        }
        if self.pairs.len() == inline && self.capacity > inline {
            self.spilled = true;
        }
        if self.pairs.len() >= self.capacity && !self.pairs.is_empty() {
            self.pairs.remove(0);
        }
        self.pairs.push((key, value));
    }

    fn touch(&mut self, key: &'static str) -> Option<i32> {
        let rank = self.find(key)?;
        let pair = self.pairs.remove(rank);
        self.pairs.push(pair);
        Some(pair.1)
    }
}

fn compare<const N: usize>(cache: &TinyLru<&'static str, i32, N>, shadow: &Shadow) {
    check_invariants(cache);
    assert_eq!(cache.len() as usize, shadow.pairs.len());
    assert_eq!(cache.capacity() as usize, shadow.capacity);
    assert_eq!(cache.is_spilled(), shadow.spilled);
    let keys: Vec<&'static str> = shadow.pairs.iter().map(|pair| pair.0).collect();
    assert_eq!(keys_in_recency_order(cache), keys);
    for pair in shadow.pairs.iter() {
        assert_eq!(cache.peek(&pair.0), Some(&pair.1));
    }
}

#[test]
fn long_run_agrees_with_a_plain_list() {
    const KEYS: [&str; 10] = ["a", "b", "c", "d", "e", "f", "g", "h", "i", "j"];
    let mut cache: TinyLru<&'static str, i32, 3> = TinyLru::with_capacity(6);
    let mut shadow = Shadow { pairs: Vec::new(), capacity: 6, spilled: false };
    let mut state: u32 = 12345;
    for step in 0..4000 {
        state = state.wrapping_mul(1664525).wrapping_add(1013904223);
        let choice = (state >> 24) % 16;
        let key = KEYS[((state >> 16) % 10) as usize];
        let value = step as i32;
        match choice {
            0..=5 => {
                cache.push(key, value);
                shadow.push(3, key, value);
            }
            6..=7 => {
                assert_eq!(cache.get(&key).copied(), shadow.touch(key));
            }
            8 => {
                let expected = shadow.touch(key);
                match cache.get_mut(&key) {
                    Some(slot) => {
                        assert_eq!(Some(*slot), expected);
                        *slot = value;
                        let last = shadow.pairs.len() - 1;
                        shadow.pairs[last].1 = value;
                    }
                    None => assert_eq!(expected, None),
                }
            }
            9..=10 => {
                let expected = match shadow.find(key) {
                    Some(rank) => Some(shadow.pairs.remove(rank)),
                    None => None,
                };
                assert_eq!(cache.remove(&key), expected);
            }
            11..=12 => {
                let expected = if shadow.pairs.is_empty() {
                    None
                } else {
                    Some(shadow.pairs.remove(0))
                };
                assert_eq!(cache.pop(), expected);
            }
            13 => {
                let possible = shadow.spilled && shadow.pairs.len() <= 3;
                assert_eq!(cache.can_unspill(), possible);
                assert_eq!(cache.unspill(), possible);
                if possible {
                    shadow.spilled = false;
                }
            }
            14 => {
                let new_cap = 3 + ((state >> 8) % 6) as usize;
                if new_cap > shadow.pairs.len() {
                    cache.set_capacity(new_cap as u16);
                    shadow.capacity = new_cap;
                }
            }
            _ => {
                if (state >> 4) % 8 == 0 {
                    cache.clear();
                    shadow.pairs.clear();
                    shadow.spilled = false;
                } else {
                    assert_eq!(cache.contains_key(&key), shadow.find(key).is_some());
                }
            }
        }
        compare(&cache, &shadow);
    }
}
