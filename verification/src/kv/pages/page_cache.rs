//! Pages that were read or written lately.

use crate::kv::pages::PageId;
use moka::sync::SegmentedCache;
use std::sync::Arc;
use vstd::arithmetic::power2::is_pow2;
use vstd::prelude::*;

verus! {

/// `moka::sync::SegmentedCache`, a concurrent cache of bounded size.
#[verifier::external_type_specification]
#[verifier::external_body]
#[verifier::reject_recursive_types(K)]
#[verifier::reject_recursive_types(V)]
#[verifier::reject_recursive_types(S)]
pub struct ExSegmentedCache<K, V, S>(SegmentedCache<K, V, S>);

/// For every page the contents that were last put into the cache and not taken out again. The cache
/// may have dropped any of them.
pub uninterp spec fn cached(cache: SegmentedCache<PageId, Arc<Vec<u8>>>) -> Map<PageId, Seq<u8>>;

/// The capacity that a cache was made for, and the number of segments that share it: what its policy
/// tells.
pub uninterp spec fn made_for(cache: SegmentedCache<PageId, Arc<Vec<u8>>>) -> (u64, usize);

/// `SegmentedCache::new`: a cache with nothing in it, for so many entries and with so many segments. The
/// number of segments must not be zero, and is to be a small one, since each segment is set up at once.
/// It is rounded up to a power of two, so that of other numbers only the capacity is said.
#[verifier::external_body]
fn new_cache(max_capacity: u64, num_segments: usize) -> (r: SegmentedCache<PageId, Arc<Vec<u8>>>)
    requires
        0 < num_segments <= 1024,
    ensures
        cached(r).dom() == Set::<PageId>::empty(),
        made_for(r).0 == max_capacity,
        is_pow2(num_segments as int) ==> made_for(r).1 == num_segments,
{
    SegmentedCache::new(max_capacity, num_segments)
}

/// `SegmentedCache::get`: the contents that were last put in under this id, or nothing. Nothing is
/// said of when an entry is dropped.
#[verifier::external_body]
fn cache_get(cache: &SegmentedCache<PageId, Arc<Vec<u8>>>, page_id: PageId) -> (r: Option<
    Arc<Vec<u8>>,
>)
    ensures
        r matches Some(data) ==> cached(*cache).contains_key(page_id) && cached(*cache)[page_id]
            == data@,
{
    cache.get(&page_id)
}

/// `SegmentedCache::insert`: puts contents in under this id, in place of what was there. What the cache
/// was made for does not change.
#[verifier::external_body]
fn cache_insert(
    cache: &mut SegmentedCache<PageId, Arc<Vec<u8>>>,
    page_id: PageId,
    data: Arc<Vec<u8>>,
)
    ensures
        cached(*final(cache)) == cached(*old(cache)).insert(page_id, data@),
        made_for(*final(cache)) == made_for(*old(cache)),
{
    cache.insert(page_id, data);
}

/// `SegmentedCache::invalidate`: takes out what stands under this id. What the cache was made for does
/// not change.
#[verifier::external_body]
fn cache_invalidate(cache: &mut SegmentedCache<PageId, Arc<Vec<u8>>>, page_id: PageId)
    ensures
        cached(*final(cache)) == cached(*old(cache)).remove(page_id),
        made_for(*final(cache)) == made_for(*old(cache)),
{
    cache.invalidate(&page_id);
}

/// The cache of pages.
pub struct PageCache {
    read_cache: SegmentedCache<PageId, Arc<Vec<u8>>>,
}

impl PageCache {
    /// For every page the contents that were last put in and not taken out again.
    pub closed spec fn contents(self) -> Map<PageId, Seq<u8>> {
        cached(self.read_cache)
    }

    /// How many pages the cache was made for.
    pub closed spec fn capacity(self) -> u64 {
        made_for(self.read_cache).0
    }

    /// How many segments share them.
    pub closed spec fn segments(self) -> usize {
        made_for(self.read_cache).1
    }

    pub fn new(cache_capacity: usize) -> (r: Self)
        ensures
            r.contents() == Map::<PageId, Seq<u8>>::empty(),
            r.capacity() == cache_capacity,
            r.segments() == 4,
    {
        assert(is_pow2(4)) by {
            reveal_with_fuel(is_pow2, 3);
        }
        PageCache { read_cache: new_cache(cache_capacity as u64, 4) }
    }

    /// The contents that were last put in for a page. There are none if nothing was put in since the
    /// page was last removed. Whether contents that were put in are still there is not said: the cache
    /// drops them by how often they were asked for, which it estimates with a hasher that every process
    /// seeds anew, and does so whenever it next tidies up.
    pub fn get(&self, page_id: PageId) -> (r: Option<Arc<Vec<u8>>>)
        ensures
            r matches Some(data) ==> self.contents().contains_key(page_id)
                && self.contents()[page_id] == data@,
    {
        cache_get(&self.read_cache, page_id)
    }

    pub fn insert(&mut self, page_id: PageId, data: Arc<Vec<u8>>)
        ensures
            final(self).contents() == old(self).contents().insert(page_id, data@),
            final(self).capacity() == old(self).capacity(),
            final(self).segments() == old(self).segments(),
    {
        cache_insert(&mut self.read_cache, page_id, data);
    }

    pub fn remove(&mut self, page_id: PageId)
        ensures
            final(self).contents() == old(self).contents().remove(page_id),
            final(self).capacity() == old(self).capacity(),
            final(self).segments() == old(self).segments(),
    {
        cache_invalidate(&mut self.read_cache, page_id);
    }
}

} // verus!
