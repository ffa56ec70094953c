//! What the cache asks of its key type.

use core::hash::Hash;
use vstd::prelude::*;
use vstd::std_specs::cmp::PartialEqSpec;
use vstd::std_specs::hash::obeys_key_model;

verus! {

/// The key type behaves as a key should: hashing is a function of the key,
/// `==` holds of two keys exactly when they are the same key, and a clone of
/// a key is that key.
///
/// The primitive integer types meet this. Every contract of the cache rests
/// on it, since nothing can be said of a cache whose keys compare or hash at
/// whim.
pub open spec fn key_model<K: Eq + Hash + Clone>() -> bool {
    &&& obeys_key_model::<K>()
    &&& K::obeys_eq_spec()
    &&& forall|a: K, b: K| #[trigger] a.eq_spec(&b) <==> a == b
    &&& forall|a: K, b: K| #[trigger] cloned(a, b) ==> a == b
}

/// Whether two keys are the same key.
pub fn same_key<K: Eq + Hash + Clone>(a: &K, b: &K) -> (same: bool)
    requires
        key_model::<K>(),
    ensures
        same == (*a == *b),
{
    *a == *b
}

/// A second copy of a key.
pub fn clone_key<K: Eq + Hash + Clone>(key: &K) -> (copy: K)
    requires
        key_model::<K>(),
    ensures
        copy == *key,
{
    let copy = key.clone();
    assert(cloned(*key, copy));
    copy
}

} // verus!
