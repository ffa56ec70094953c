//! A least-recently-used cache for small working sets.
//!
//! Entries live in a compact store without holes, inline while at most `N`
//! of them are live; their recency order is a
//! doubly-linked chain of store positions. Keys are found by a linear scan
//! while at most `N` entries are live, and through a hash index once the cache
//! has grown past `N`.
//!
//! - [`cache`]: the cache itself, [`TinyLru`], with the contract of every
//!   operation.
//! - [`model`]: the abstract state that the contracts speak of.
//! - [`laws`]: what the contracts imply for sequences of calls.
//! - [`links`]: the recency chain and the steps that keep it intact.
//! - [`lookup`]: what ties the hash index to the store.
//! - [`keys`]: what is asked of a key type.
//! - [`store`]: the compact store, a `TinyVec`, taken on trust.
//! - [`outside`]: what is taken on trust of the hash index and the hint.

pub mod cache;
pub mod keys;
pub mod laws;
pub mod links;
pub mod lookup;
pub mod model;
pub mod outside;
pub mod store;

pub use crate::cache::assert_capacity_limit;
pub use crate::cache::TinyLru;
pub use crate::keys::key_model;
pub use crate::links::Entry;
pub use crate::links::MAX_CAPACITY;
pub use crate::links::SENTINEL;
pub use crate::model::CacheView;
