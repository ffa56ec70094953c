//! What this library takes on trust of the hash index and of the branch
//! hint. Nothing in this file is proved.

use core::hash::Hash;
use rustc_hash::FxBuildHasher;
use rustc_hash::FxHashMap;
use vstd::prelude::*;
use vstd::std_specs::hash::obeys_key_model;

verus! {

/// `rustc_hash::FxBuildHasher`, the hasher builder of an `FxHashMap`. Nothing
/// is said of it here; it only has to be nameable as a type parameter.
#[verifier::external_type_specification]
#[verifier::external_body]
pub struct ExFxBuildHasher(FxBuildHasher);

/// `likely_stable::unlikely`: a branch hint. It hands its argument back.
pub assume_specification[ likely_stable::unlikely ](b: bool) -> (r: bool)
    ensures
        r == b,
;

/// `insert` of an `FxHashMap`, which is std's `HashMap::insert` hashing with
/// `FxHasher`. That hasher's digest depends on nothing but the bytes written
/// to it, so for a key type whose `Hash` and `Eq` agree with equality the map
/// afterwards maps `key` to `pos` and is otherwise as before.
#[verifier::external_body]
pub(crate) fn index_insert<K: Eq + Hash>(m: &mut FxHashMap<K, u16>, key: K, pos: u16)
    ensures
        obeys_key_model::<K>() ==> final(m)@ == old(m)@.insert(key, pos),
{
    m.insert(key, pos);
}

/// `get` of an `FxHashMap` (std's `HashMap::get`): the position recorded for
/// `key`, if the map holds the key.
#[verifier::external_body]
pub(crate) fn index_get<K: Eq + Hash>(m: &FxHashMap<K, u16>, key: &K) -> (pos: Option<u16>)
    ensures
        obeys_key_model::<K>() ==> pos == (if m@.contains_key(*key) {
            Some(m@[*key])
        } else {
            None
        }),
{
    m.get(key).copied()
}

/// `remove` of an `FxHashMap` (std's `HashMap::remove`): afterwards the map
/// does not hold `key` and is otherwise as before.
#[verifier::external_body]
pub(crate) fn index_remove<K: Eq + Hash>(m: &mut FxHashMap<K, u16>, key: &K)
    ensures
        obeys_key_model::<K>() ==> final(m)@ == old(m)@.remove(*key),
{
    m.remove(key);
}

/// `len` of an `FxHashMap` (std's `HashMap::len`): the number of keys held.
#[verifier::external_body]
pub(crate) fn index_len<K: Eq + Hash>(m: &FxHashMap<K, u16>) -> (n: usize)
    ensures
        obeys_key_model::<K>() ==> n == m@.dom().len(),
{
    m.len()
}

} // verus!
