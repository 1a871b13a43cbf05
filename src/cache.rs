use lru_cache::LruCache;
use vstd::prelude::*;

use crate::layers::{stack_view, InfoModel, ShortStateInfo};

verus! {

/// The bounded LRU map of the `lru-cache` crate, held opaque: what it holds
/// is known through `cache_contents` alone.
#[verifier::external_type_specification]
#[verifier::external_body]
#[verifier::reject_recursive_types(K)]
#[verifier::reject_recursive_types(V)]
#[verifier::reject_recursive_types(S)]
pub struct ExLruCache<K: Eq + std::hash::Hash, V, S: std::hash::BuildHasher>(LruCache<K, V, S>);

/// The stacks that a cache of materialized stacks holds, by short state hash.
pub uninterp spec fn cache_contents(c: LruCache<u64, Vec<ShortStateInfo>>) -> Map<u64, Seq<InfoModel>>;

/// The number of entries that a cache was made to hold at most.
pub uninterp spec fn cache_bound(c: LruCache<u64, Vec<ShortStateInfo>>) -> usize;

/// Relies on `LruCache::new`: a new cache holds nothing and keeps the
/// capacity it was given.
#[verifier::external_body]
pub(crate) fn cache_new(capacity: usize) -> (r: LruCache<u64, Vec<ShortStateInfo>>)
    ensures
        cache_contents(r).dom() == Set::<u64>::empty(),
        cache_bound(r) == capacity,
{
    LruCache::new(capacity)
}

/// Relies on `LruCache::get_mut`: it finds the entry of `k` where there is
/// one, and only marks it as the most recently used, so the contents stay.
#[verifier::external_body]
pub(crate) fn cache_get(c: &mut LruCache<u64, Vec<ShortStateInfo>>, k: u64) -> (r: Option<
    Vec<ShortStateInfo>,
>)
    ensures
        cache_contents(*final(c)) == cache_contents(*old(c)),
        cache_bound(*final(c)) == cache_bound(*old(c)),
        match r {
            Some(v) => cache_contents(*old(c)).contains_key(k) && stack_view(v@) == cache_contents(
                *old(c),
            )[k],
            None => !cache_contents(*old(c)).contains_key(k),
        },
{
    c.get_mut(&k).cloned()
}

/// Relies on `LruCache::insert`: the entry of `k` is set to `v` and becomes
/// the most recently used, and where the cache is then over its capacity the
/// least recently used entry leaves. So every entry afterwards is `k`'s new
/// one or one that was there before, and with a capacity of at least one the
/// new entry stays.
#[verifier::external_body]
pub(crate) fn cache_insert(c: &mut LruCache<u64, Vec<ShortStateInfo>>, k: u64, v: Vec<ShortStateInfo>)
    ensures
        cache_contents(*final(c)).submap_of(cache_contents(*old(c)).insert(k, stack_view(v@))),
        cache_bound(*final(c)) == cache_bound(*old(c)),
        cache_bound(*old(c)) > 0 ==> cache_contents(*final(c)).contains_key(k) && cache_contents(
            *final(c),
        )[k] == stack_view(v@),
{
    c.insert(k, v);
}

/// Relies on `LruCache::clear`: afterwards the cache holds nothing; its
/// capacity stays.
#[verifier::external_body]
pub(crate) fn cache_clear(c: &mut LruCache<u64, Vec<ShortStateInfo>>)
    ensures
        cache_contents(*final(c)).dom() == Set::<u64>::empty(),
        cache_bound(*final(c)) == cache_bound(*old(c)),
{
    c.clear();
}

/// Relies on `LruCache::len`: the number of entries held.
#[verifier::external_body]
pub(crate) fn cache_len(c: &LruCache<u64, Vec<ShortStateInfo>>) -> (r: usize)
    ensures
        r == cache_contents(*c).dom().len(),
{
    c.len()
}

} // verus!
