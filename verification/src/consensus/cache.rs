//! A bounded cache of recent blocks.

use crate::consensus::block::{BlockData, BlockDataView};
use crate::primitives::hash::Hash256;
use lru::LruCache;
use vstd::prelude::*;

verus! {

/// The least-recently-used cache of the `lru` crate.
#[verifier::external_type_specification]
#[verifier::external_body]
#[verifier::reject_recursive_types(K)]
#[verifier::reject_recursive_types(V)]
#[verifier::reject_recursive_types(S)]
pub struct ExLruCache<K, V, S>(lru::LruCache<K, V, S>);

/// The hasher that the `lru` crate uses unless it is given another.
#[verifier::external_type_specification]
#[verifier::external_body]
pub struct ExDefaultHasher(lru::DefaultHasher);

/// Entries of a cache, the one that was put last at the end.
pub type CacheEntries = Seq<(Seq<u8>, BlockDataView)>;

/// What a cache of blocks holds.
pub uninterp spec fn cache_entries(cache: LruCache<Hash256, BlockData>) -> CacheEntries;

/// How many entries a cache of blocks may hold.
pub uninterp spec fn cache_capacity(cache: LruCache<Hash256, BlockData>) -> nat;

/// Place of a key among the entries of a cache.
pub open spec fn entry_index(entries: CacheEntries, key: Seq<u8>) -> Option<int> {
    if exists|i: int| 0 <= i < entries.len() && (#[trigger] entries[i]).0 == key {
        Some(choose|i: int| 0 <= i < entries.len() && (#[trigger] entries[i]).0 == key)
    } else {
        None
    }
}

/// The value of a key in a cache.
pub open spec fn cached(entries: CacheEntries, key: Seq<u8>) -> Option<BlockDataView> {
    match entry_index(entries, key) {
        Some(i) => Some(entries[i].1),
        None => None,
    }
}

/// The entries after a value was put. A key that is there moves to the end; a new
/// one drives out the first entry where the cache is full.
pub open spec fn cache_after_put(
    entries: CacheEntries,
    capacity: nat,
    key: Seq<u8>,
    value: BlockDataView,
) -> CacheEntries {
    match entry_index(entries, key) {
        Some(i) => entries.remove(i).push((key, value)),
        None => if entries.len() == capacity {
            entries.skip(1).push((key, value))
        } else {
            entries.push((key, value))
        },
    }
}

/// No key occurs twice, and no more entries than the cache may hold.
pub open spec fn entries_valid(entries: CacheEntries, capacity: nat) -> bool {
    &&& entries.len() <= capacity
    &&& forall|i: int, j: int|
        0 <= i < j < entries.len() ==> (#[trigger] entries[i]).0 != (#[trigger] entries[j]).0
}

/// `lru::LruCache::new`: an empty cache of the given capacity, which it sets
/// memory aside for.
#[verifier::external_body]
pub(crate) fn new_cache(capacity: usize) -> (cache: LruCache<Hash256, BlockData>)
    requires
        0 < capacity <= 0x10_0000,
    ensures
        cache_entries(cache) == CacheEntries::empty(),
        cache_capacity(cache) == capacity,
{
    LruCache::new(std::num::NonZeroUsize::new(capacity).unwrap())
}

/// `lru::LruCache::put`: the value of the key is replaced and the key becomes the
/// most recent one; where the key is new and the cache full, the least recent
/// entry leaves.
#[verifier::external_body]
pub(crate) fn cache_put(cache: &mut LruCache<Hash256, BlockData>, key: Hash256, value: BlockData)
    ensures
        cache_entries(*final(cache)) == cache_after_put(
            cache_entries(*old(cache)),
            cache_capacity(*old(cache)),
            key@,
            value@,
        ),
        cache_capacity(*final(cache)) == cache_capacity(*old(cache)),
{
    cache.put(key, value);
}

/// `lru::LruCache::peek`: the value of the key, without making the key more
/// recent.
#[verifier::external_body]
pub(crate) fn cache_peek<'a>(cache: &'a LruCache<Hash256, BlockData>, key: &Hash256) -> (r: Option<
    &'a BlockData,
>)
    ensures
        match r {
            Some(v) => cached(cache_entries(*cache), key@) == Some(v@),
            None => cached(cache_entries(*cache), key@) is None,
        },
{
    cache.peek(key)
}

/// `lru::LruCache::cap`: the capacity that the cache was made with.
#[verifier::external_body]
pub(crate) fn cache_cap(cache: &LruCache<Hash256, BlockData>) -> (n: usize)
    ensures
        n == cache_capacity(*cache),
{
    cache.cap().get()
}

/// A value that was put is found, whatever it drove out.
pub proof fn lemma_put_is_found(
    entries: CacheEntries,
    capacity: nat,
    key: Seq<u8>,
    value: BlockDataView,
)
    requires
        entries_valid(entries, capacity),
        capacity > 0,
    ensures
        cached(cache_after_put(entries, capacity, key, value), key) == Some(value),
        entries_valid(cache_after_put(entries, capacity, key, value), capacity),
{
    let after = cache_after_put(entries, capacity, key, value);
    let last = after.len() - 1;
    assert(after[last] == (key, value));
    match entry_index(entries, key) {
        Some(i) => {
            assert forall|p: int, q: int| 0 <= p < q < after.len() implies (
            #[trigger] after[p]).0 != (#[trigger] after[q]).0 by {
                let fp = if p < i {
                    p
                } else {
                    p + 1
                };
                assert(after[p] == entries[fp]);
                if q < last {
                    let fq = if q < i {
                        q
                    } else {
                        q + 1
                    };
                    assert(after[q] == entries[fq]);
                } else {
                    assert(entries[i].0 == key);
                    if fp < i {
                        assert(entries[fp].0 != entries[i].0);
                    } else {
                        assert(entries[i].0 != entries[fp].0);
                    }
                }
            }
        },
        None => {
            let kept = if entries.len() == capacity {
                entries.skip(1)
            } else {
                entries
            };
            let shift = if entries.len() == capacity {
                1int
            } else {
                0int
            };
            assert forall|p: int, q: int| 0 <= p < q < after.len() implies (
            #[trigger] after[p]).0 != (#[trigger] after[q]).0 by {
                assert(after[p] == entries[p + shift]);
                if q < last {
                    assert(after[q] == entries[q + shift]);
                }
            }
        },
    }
}

} // verus!
