//! A capacity-bounded most-recently-used cache of repository records, keyed
//! by path. Purely an optimization: a miss falls back to the canonical store,
//! and nothing here is ever trusted over it. The cache itself comes from the
//! lru crate; the contracts below say how each call changes what it holds.

use crate::repo_types::GitRepository;
use std::collections::hash_map::RandomState;
use vstd::prelude::*;

verus! {

/// The cache instantiated for this store: repository records keyed by path.
pub type RepositoryCache = lru::LruCache<String, GitRepository, RandomState>;

#[verifier::external_type_specification]
#[verifier::external_body]
#[verifier::reject_recursive_types(K)]
#[verifier::reject_recursive_types(V)]
#[verifier::reject_recursive_types(S)]
pub struct ExLruCache<K, V, S>(lru::LruCache<K, V, S>);

/// The records the cache holds, by path. Recency order is deliberately not
/// modelled: no contract here depends on which entry is least recently used.
pub uninterp spec fn lru_contents(c: RepositoryCache) -> Map<
    Seq<char>,
    GitRepository,
>;

/// The capacity the cache was created with.
pub uninterp spec fn lru_capacity(c: RepositoryCache) -> nat;

/// Relies on lru::LruCache::with_hasher: a fresh cache holds nothing and
/// evicts only beyond `capacity` entries.
#[verifier::external_body]
pub fn create_repository_cache(capacity: usize) -> (r: RepositoryCache)
    requires
        capacity >= 1,
    ensures
        forall|p: Seq<char>| !lru_contents(r).contains_key(p),
        lru_capacity(r) == capacity,
{
    lru::LruCache::with_hasher(std::num::NonZeroUsize::new(capacity).unwrap(), RandomState::new())
}

/// Relies on lru::LruCache::get: returns a copy of the record stored under
/// the key, if any, promoting it to most recently used; what is stored does
/// not change.
#[verifier::external_body]
pub fn lru_get(c: &mut RepositoryCache, k: &String) -> (r: Option<
    GitRepository,
>)
    ensures
        lru_contents(*final(c)) == lru_contents(*old(c)),
        lru_capacity(*final(c)) == lru_capacity(*old(c)),
        r is Some <==> lru_contents(*old(c)).contains_key(k@),
        r matches Some(v) ==> v == lru_contents(*old(c))[k@],
{
    c.get(k).cloned()
}

/// Relies on lru::LruCache::put: stores the record under the key, replacing
/// what the key held; at most the least-recently-used other entry leaves, and
/// no surviving entry changes.
#[verifier::external_body]
pub fn lru_put(c: &mut RepositoryCache, k: String, v: GitRepository)
    ensures
        lru_capacity(*final(c)) == lru_capacity(*old(c)),
        lru_contents(*final(c)).contains_key(k@),
        lru_contents(*final(c))[k@] == v,
        forall|p: Seq<char>|
            p != k@ && #[trigger] lru_contents(*final(c)).contains_key(p) ==> lru_contents(
                *old(c),
            ).contains_key(p) && lru_contents(*final(c))[p] == lru_contents(*old(c))[p],
{
    c.put(k, v);
}

/// Relies on lru::LruCache::pop: removes and returns the record stored under
/// the key, if any; nothing else changes.
#[verifier::external_body]
pub fn lru_pop(c: &mut RepositoryCache, k: &String) -> (r: Option<
    GitRepository,
>)
    ensures
        lru_capacity(*final(c)) == lru_capacity(*old(c)),
        lru_contents(*final(c)) == lru_contents(*old(c)).remove(k@),
        r is Some <==> lru_contents(*old(c)).contains_key(k@),
        r matches Some(v) ==> v == lru_contents(*old(c))[k@],
{
    c.pop(k)
}

/// Relies on lru::LruCache::len: how many records the cache holds.
#[verifier::external_body]
pub fn lru_len(c: &RepositoryCache) -> (r: usize)
    ensures
        r == lru_contents(*c).len(),
{
    c.len()
}

/// Relies on lru::LruCache::clear: empties the cache; its capacity stays.
#[verifier::external_body]
pub fn lru_clear(c: &mut RepositoryCache)
    ensures
        lru_capacity(*final(c)) == lru_capacity(*old(c)),
        forall|p: Seq<char>| !lru_contents(*final(c)).contains_key(p),
{
    c.clear();
}

} // verus!
