//! Bounded caches of known message hashes, kept in `lru::LruCache`.

use vstd::prelude::*;
use std::num::NonZeroUsize;

verus! {

#[verifier::external_type_specification]
#[verifier::external_body]
#[verifier::reject_recursive_types(K)]
#[verifier::reject_recursive_types(V)]
#[verifier::reject_recursive_types(S)]
pub struct ExLruCache<K, V, S>(lru::LruCache<K, V, S>);

#[verifier::external_type_specification]
#[verifier::external_body]
pub struct ExDefaultHasher(lru::DefaultHasher);

/// The hashes a cache holds.
pub uninterp spec fn cached(c: lru::LruCache<u64, ()>) -> Set<u64>;

/// The capacity a cache was made with.
pub uninterp spec fn capacity(c: lru::LruCache<u64, ()>) -> nat;

/// `LruCache::new` with `NonZeroUsize::new(cap)`: an empty cache of
/// capacity `cap`.
#[verifier::external_body]
pub(crate) fn cache_new(cap: usize) -> (r: lru::LruCache<u64, ()>)
    requires
        cap > 0,
    ensures
        cached(r) == Set::<u64>::empty(),
        capacity(r) == cap,
{
    lru::LruCache::new(NonZeroUsize::new(cap).unwrap())
}

/// `LruCache::contains`: whether the cache holds `k`; the recency order is
/// not touched.
#[verifier::external_body]
pub(crate) fn cache_contains(c: &lru::LruCache<u64, ()>, k: u64) -> (r: bool)
    ensures
        r == cached(*c).contains(k),
{
    c.contains(&k)
}

/// `LruCache::put`: afterwards the cache holds `k`. A held key leaves the
/// contents as they were; a new key is added, and when the cache was full
/// one other key, the least recently used, leaves it. Which key that is is
/// not stated.
#[verifier::external_body]
pub(crate) fn cache_put(c: &mut lru::LruCache<u64, ()>, k: u64)
    ensures
        capacity(*final(c)) == capacity(*old(c)),
        cached(*old(c)).contains(k) ==> cached(*final(c)) == cached(*old(c)),
        !cached(*old(c)).contains(k) && cached(*old(c)).len() < capacity(*old(c)) ==> cached(
            *final(c),
        ) == cached(*old(c)).insert(k),
        !cached(*old(c)).contains(k) && cached(*old(c)).len() >= capacity(*old(c)) ==> exists|
            e: u64,
        |
            #![trigger cached(*old(c)).remove(e)]
            cached(*old(c)).contains(e) && cached(*final(c)) == cached(*old(c)).remove(e).insert(
                k,
            ),
{
    c.put(k, ());
}

/// Whatever a put evicts, the cache then holds the key put.
pub proof fn lemma_put_holds(before: Set<u64>, after: Set<u64>, k: u64, cap: nat)
    requires
        before.contains(k) ==> after == before,
        !before.contains(k) && before.len() < cap ==> after == before.insert(k),
        !before.contains(k) && before.len() >= cap ==> exists|e: u64|
            #![trigger before.remove(e)]
            before.contains(e) && after == before.remove(e).insert(k),
    ensures
        after.contains(k),
        forall|x: u64| after.contains(x) ==> before.contains(x) || x == k,
{
    if !before.contains(k) && before.len() >= cap {
        let e = choose|e: u64| #![trigger before.remove(e)] before.contains(e) && after == before.remove(
            e,
        ).insert(k);
        assert(after.contains(k));
    }
}

} // verus!
