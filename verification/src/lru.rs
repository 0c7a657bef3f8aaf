//! Trusted boundary around the `lru_cache` crate.
//!
//! The shared account cache keeps its address-to-record map in an
//! `lru_cache::LruCache`.  Verus sees that type as opaque; the spec functions
//! below name what it holds, and each method the cache logic calls gets a
//! small wrapper whose contract states what the crate's source shows.

use vstd::prelude::*;

use crate::record::AccountRecord;
use core::hash::BuildHasher;
use core::hash::Hash;
use lru_cache::LruCache;

verus! {

#[verifier::external_type_specification]
#[verifier::external_body]
#[verifier::reject_recursive_types(K)]
#[verifier::reject_recursive_types(V)]
#[verifier::reject_recursive_types(S)]
pub struct ExLruCache<K: Eq + Hash, V, S: BuildHasher>(LruCache<K, V, S>);

/// The empty contents map, for contracts.
pub open spec fn lru_empty() -> Map<u64, Option<AccountRecord>> {
    Map::empty()
}

/// The entries currently held by the cache, keyed by address.
pub uninterp spec fn lru_map(c: LruCache<u64, Option<AccountRecord>>) -> Map<u64, Option<AccountRecord>>;

/// The capacity the cache was created with.
pub uninterp spec fn lru_cap(c: LruCache<u64, Option<AccountRecord>>) -> nat;

/// Relies on `lru_cache::LruCache::new`: an empty cache that holds at most
/// `capacity` entries.
#[verifier::external_body]
pub(crate) fn lru_new(capacity: usize) -> (c: LruCache<u64, Option<AccountRecord>>)
    ensures
        lru_map(c) == lru_empty(),
        lru_cap(c) == capacity,
{
    LruCache::new(capacity)
}

/// Relies on `lru_cache::LruCache::insert`: replaces the value of an existing
/// key and returns the old one; otherwise inserts the pair, evicting the
/// least-recently-used entry once the cache is over capacity.
#[verifier::external_body]
pub(crate) fn lru_insert(
    c: &mut LruCache<u64, Option<AccountRecord>>,
    k: u64,
    v: Option<AccountRecord>,
) -> (r: Option<Option<AccountRecord>>)
    requires
        lru_cap(*old(c)) >= 1,
        lru_map(*old(c)).dom().finite(),
        lru_map(*old(c)).len() <= lru_cap(*old(c)),
    ensures
        lru_cap(*final(c)) == lru_cap(*old(c)),
        lru_map(*old(c)).dom().contains(k) || lru_map(*old(c)).len() < lru_cap(*old(c))
            ==> lru_map(*final(c)) == lru_map(*old(c)).insert(k, v),
        !(lru_map(*old(c)).dom().contains(k) || lru_map(*old(c)).len() < lru_cap(*old(c)))
            ==> exists|e: u64|
                e != k && lru_map(*old(c)).dom().contains(e) && lru_map(*final(c)) == lru_map(
                    *old(c),
                ).insert(k, v).remove(e),
        r == if lru_map(*old(c)).dom().contains(k) {
            Some(lru_map(*old(c))[k])
        } else {
            None::<Option<AccountRecord>>
        },
{
    c.insert(k, v)
}

/// Relies on `lru_cache::LruCache::get_mut`: returns the entry for the key and
/// refreshes its recency; the contents are unchanged.
#[verifier::external_body]
pub(crate) fn lru_get(c: &mut LruCache<u64, Option<AccountRecord>>, k: u64) -> (r: Option<Option<AccountRecord>>)
    ensures
        lru_map(*final(c)) == lru_map(*old(c)),
        lru_cap(*final(c)) == lru_cap(*old(c)),
        r == if lru_map(*old(c)).dom().contains(k) {
            Some(lru_map(*old(c))[k])
        } else {
            None::<Option<AccountRecord>>
        },
{
    match c.get_mut(&k) {
        None => None,
        Some(v) => Some(*v),
    }
}

/// Relies on `lru_cache::LruCache::remove`: removes the entry for the key, if
/// any, and returns its value.
#[verifier::external_body]
pub(crate) fn lru_remove(c: &mut LruCache<u64, Option<AccountRecord>>, k: u64) -> (r: Option<Option<AccountRecord>>)
    ensures
        lru_map(*final(c)) == lru_map(*old(c)).remove(k),
        lru_cap(*final(c)) == lru_cap(*old(c)),
        r == if lru_map(*old(c)).dom().contains(k) {
            Some(lru_map(*old(c))[k])
        } else {
            None::<Option<AccountRecord>>
        },
{
    c.remove(&k)
}

/// Relies on `lru_cache::LruCache::clear`: removes every entry.
#[verifier::external_body]
pub(crate) fn lru_clear(c: &mut LruCache<u64, Option<AccountRecord>>)
    ensures
        lru_map(*final(c)) == lru_empty(),
        lru_cap(*final(c)) == lru_cap(*old(c)),
{
    c.clear()
}

/// Relies on `lru_cache::LruCache::len`: the number of entries held.
#[verifier::external_body]
pub(crate) fn lru_len(c: &LruCache<u64, Option<AccountRecord>>) -> (r: usize)
    ensures
        r == lru_map(*c).len(),
{
    c.len()
}

} // verus!
