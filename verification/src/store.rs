//! The compact store: the entries in a row without holes, held inline while
//! they fit and on the heap beyond. It is a `tinyvec::TinyVec`, and what this
//! file says of it is taken on trust; nothing in it is proved.

use crate::links::Entry;
use tinyvec::TinyVec;
use vstd::prelude::*;

verus! {

/// The `TinyVec` that holds the entries. Verus does not look inside.
#[verifier::external_body]
#[verifier::reject_recursive_types(K)]
#[verifier::reject_recursive_types(V)]
pub struct Backing<K: Default, V: Default, const N: usize> {
    items: TinyVec<[Entry<K, V>; N]>,
}

/// The store with what it holds. `held` is what the contracts below speak
/// of; the functions of this file keep it in step with the `TinyVec`, and
/// nothing outside this file can reach either field.
#[verifier::reject_recursive_types(K)]
#[verifier::reject_recursive_types(V)]
pub struct Store<K: Default, V: Default, const N: usize> {
    inner: Backing<K, V, N>,
    held: Ghost<Seq<Entry<K, V>>>,
}

impl<K: Default, V: Default, const N: usize> View for Store<K, V, N> {
    type V = Seq<Entry<K, V>>;

    closed spec fn view(&self) -> Seq<Entry<K, V>> {
        self.held@
    }
}

/// `TinyVec::new`: an empty store, inline.
#[verifier::external_body]
pub(crate) fn store_new<K: Default, V: Default, const N: usize>() -> (s: Store<K, V, N>)
    ensures
        s@.len() == 0,
{
    Store { inner: Backing { items: TinyVec::new() }, held: Ghost(Seq::empty()) }
}

/// `TinyVec::len`: the number of entries.
#[verifier::external_body]
pub(crate) fn store_len<K: Default, V: Default, const N: usize>(s: &Store<K, V, N>) -> (n: usize)
    ensures
        n == s@.len(),
{
    s.inner.items.len()
}

/// `TinyVec::push`: the entry goes to the end; once the inline room is used
/// up the entries move to the heap, in the same order. The inline part
/// counts its entries in 16 bits and moves to the heap only when all `N`
/// inline places are taken, so this holds for `N` up to 65535 and no
/// further.
#[verifier::external_body]
pub(crate) fn store_push<K: Default, V: Default, const N: usize>(
    s: &mut Store<K, V, N>,
    entry: Entry<K, V>,
)
    requires
        N <= 0xFFFF,
    ensures
        final(s)@ == old(s)@.push(entry),
{
    s.inner.items.push(entry);
}

/// `TinyVec::swap_remove`: the entry at `i` comes out and the last entry
/// takes its place. It panics on an `i` that is not a position.
#[verifier::external_body]
pub(crate) fn store_swap_remove<K: Default, V: Default, const N: usize>(
    s: &mut Store<K, V, N>,
    i: usize,
) -> (entry: Entry<K, V>)
    requires
        i < old(s)@.len(),
    ensures
        entry == old(s)@[i as int],
        final(s)@ == old(s)@.update(i as int, old(s)@.last()).drop_last(),
{
    s.inner.items.swap_remove(i)
}

/// `TinyVec::clear`: no entry is left.
#[verifier::external_body]
pub(crate) fn store_clear<K: Default, V: Default, const N: usize>(s: &mut Store<K, V, N>)
    ensures
        final(s)@.len() == 0,
{
    s.inner.items.clear();
}

/// `TinyVec::shrink_to_fit`: the entries go back inline where they fit;
/// they stay as they are and in their order. Going back inline counts the
/// entries in 16 bits, so this too is for `N` up to 65535.
#[verifier::external_body]
pub(crate) fn store_shrink_to_fit<K: Default, V: Default, const N: usize>(s: &mut Store<K, V, N>)
    requires
        N <= 0xFFFF,
    ensures
        final(s)@ == old(s)@,
{
    s.inner.items.shrink_to_fit();
}

/// Indexing a `TinyVec` (through its slice): the entry at `i`. It panics on
/// an `i` that is not a position.
#[verifier::external_body]
pub(crate) fn store_entry<K: Default, V: Default, const N: usize>(
    s: &Store<K, V, N>,
    i: usize,
) -> (entry: &Entry<K, V>)
    requires
        i < s@.len(),
    ensures
        *entry == s@[i as int],
{
    &s.inner.items[i]
}

/// Indexing a `TinyVec` mutably: the entry at `i`, to be written in place.
/// The other entries stay. It panics on an `i` that is not a position.
#[verifier::external_body]
pub(crate) fn store_entry_mut<K: Default, V: Default, const N: usize>(
    s: &mut Store<K, V, N>,
    i: usize,
) -> (entry: &mut Entry<K, V>)
    requires
        i < old(s)@.len(),
    ensures
        *entry == old(s)@[i as int],
        final(s)@ == old(s)@.update(i as int, *final(entry)),
{
    &mut s.inner.items[i]
}

} // verus!
