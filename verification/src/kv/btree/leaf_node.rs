//! Leaf pages.
//!
//! A leaf page starts with a header of three integers: the kind, the number of pairs, and the
//! offset at which the pairs' bytes begin. Behind it stand the pairs' metadata, four integers each
//! (key size, key offset, value size, value offset), in the order of the keys. The bytes of the
//! pairs fill the page from its end downwards, each value right behind its key.

use crate::kv::bytes::{
    bytes_at, copy_within, lemma_splice_u64, lemma_u64_at_same, lemma_u64_bytes, read_u64,
    same_range, splice, to_vec, u64_at, write_data_at_offset, write_u64,
};
use crate::kv::btree::node::{node_kind, LEAF_KIND};
use crate::kv::entries::{
    lemma_pairs_size_mono, lemma_split_run, pair_keys, pairs_get, pairs_size, upsert, Pair,
};
use crate::kv::error::{Error, Result};
use crate::kv::keys::{
    compare_keys, key_lt, keys_sorted, lemma_above_from, lemma_below_up_to, lemma_found_rank,
    lemma_missing_rank, lemma_sorted_extended, rank, KeyOrder,
};
use vstd::prelude::*;

verus! {

/// The size of a leaf's header.
pub const LEAF_HEADER_SIZE: usize = 24;

/// The size of a pair's metadata.
pub const LEAF_ENTRY_SIZE: usize = 32;

/// Where the metadata of pair `i` stands.
pub open spec fn leaf_slot(i: int) -> int {
    24 + 32 * i
}

/// The number of pairs.
pub open spec fn leaf_count(page: Seq<u8>) -> nat {
    u64_at(page, 8)
}

/// Where the pairs' bytes begin.
pub open spec fn leaf_end(page: Seq<u8>) -> nat {
    u64_at(page, 16)
}

pub open spec fn leaf_key_size(page: Seq<u8>, i: int) -> nat {
    u64_at(page, leaf_slot(i))
}

pub open spec fn leaf_key_offset(page: Seq<u8>, i: int) -> nat {
    u64_at(page, leaf_slot(i) + 8)
}

pub open spec fn leaf_value_size(page: Seq<u8>, i: int) -> nat {
    u64_at(page, leaf_slot(i) + 16)
}

pub open spec fn leaf_value_offset(page: Seq<u8>, i: int) -> nat {
    u64_at(page, leaf_slot(i) + 24)
}

/// How many bytes pair `i` takes.
pub open spec fn leaf_kv_size(page: Seq<u8>, i: int) -> nat {
    leaf_key_size(page, i) + leaf_value_size(page, i)
}

/// Pair `i` of the page.
pub open spec fn leaf_pair(page: Seq<u8>, i: int) -> Pair {
    (
        bytes_at(page, leaf_key_offset(page, i), leaf_key_size(page, i)),
        bytes_at(page, leaf_value_offset(page, i), leaf_value_size(page, i)),
    )
}

/// The pairs of the page, in the order in which they stand there.
pub open spec fn leaf_pairs(page: Seq<u8>) -> Seq<Pair> {
    Seq::new(leaf_count(page), |i: int| leaf_pair(page, i))
}

/// Whether the bytes of pair `i` lie within the part of the page that holds pairs, the value right
/// behind the key.
pub open spec fn leaf_region_valid(page: Seq<u8>, i: int) -> bool {
    &&& leaf_end(page) <= leaf_key_offset(page, i)
    &&& leaf_value_offset(page, i) == leaf_key_offset(page, i) + leaf_key_size(page, i)
    &&& leaf_value_offset(page, i) + leaf_value_size(page, i) <= page.len()
}

/// Whether pairs `i` and `j` share no byte.
pub open spec fn leaf_regions_apart(page: Seq<u8>, i: int, j: int) -> bool {
    ||| leaf_key_offset(page, i) + leaf_kv_size(page, i) <= leaf_key_offset(page, j)
    ||| leaf_key_offset(page, j) + leaf_kv_size(page, j) <= leaf_key_offset(page, i)
}

/// Whether the header and the metadata fit the page, and the pairs do not overlap.
pub open spec fn leaf_layout(page: Seq<u8>) -> bool {
    &&& 24 <= page.len() <= usize::MAX
    &&& node_kind(page) == LEAF_KIND
    &&& leaf_slot(leaf_count(page) as int) <= leaf_end(page) <= page.len()
    &&& forall|i: int| 0 <= i < leaf_count(page) ==> #[trigger] leaf_region_valid(page, i)
    &&& forall|i: int, j: int|
        0 <= i < j < leaf_count(page) ==> #[trigger] leaf_regions_apart(page, i, j)
}

/// Whether the page is a leaf: a valid layout, and keys that are strictly increasing.
pub open spec fn leaf_wf(page: Seq<u8>) -> bool {
    &&& leaf_layout(page)
    &&& keys_sorted(pair_keys(leaf_pairs(page)))
}

/// Whether a buffer is long enough for the leaf that its header announces.
pub open spec fn leaf_parses(page: Seq<u8>) -> bool {
    page.len() >= 24 && leaf_slot(leaf_count(page) as int) <= page.len()
}

/// Whether another pair of this size fits between the metadata and the bytes of the pairs.
pub open spec fn leaf_fits(page: Seq<u8>, key_len: nat, value_len: nat) -> bool {
    leaf_slot(leaf_count(page) as int + 1) + key_len + value_len <= leaf_end(page)
}

/// How many bytes a leaf needs for these pairs.
pub open spec fn leaf_size(pairs: Seq<Pair>) -> nat {
    (24 + 32 * pairs.len() + pairs_size(pairs, pairs.len())) as nat
}

/// The metadata of a pair.
#[derive(Debug, Clone, Copy)]
pub struct LeafEntryMetadata {
    pub key_size: usize,
    pub key_offset: usize,
    pub value_size: usize,
    pub value_offset: usize,
}

impl LeafEntryMetadata {
    /// Whether this is the metadata that the page holds for pair `i`.
    pub open spec fn stands_at(self, page: Seq<u8>, i: int) -> bool {
        &&& leaf_key_size(page, i) == self.key_size
        &&& leaf_key_offset(page, i) == self.key_offset
        &&& leaf_value_size(page, i) == self.value_size
        &&& leaf_value_offset(page, i) == self.value_offset
    }

    pub fn kv_size(&self) -> (r: usize)
        requires
            self.key_size + self.value_size <= usize::MAX,
        ensures
            r == self.key_size + self.value_size,
    {
        self.key_size + self.value_size
    }
}

/// A leaf page that is only read.
pub struct LeafPage<'a> {
    num_pairs: usize,
    page: &'a [u8],
}

impl<'a> LeafPage<'a> {
    /// The bytes of the page.
    pub closed spec fn page(self) -> Seq<u8> {
        self.page@
    }

    /// Whether the buffer holds the header and the metadata that it announces.
    pub closed spec fn inv(self) -> bool {
        &&& leaf_parses(self.page@)
        &&& self.num_pairs == leaf_count(self.page@)
    }

    pub fn from_page(page: &'a [u8]) -> (r: Result<Self>)
        ensures
            match r {
                Ok(leaf) => leaf_parses(page@) && leaf.page() == page@ && leaf.inv(),
                Err(e) => !leaf_parses(page@) && e.is_conversion(),
            },
    {
        if page.len() < LEAF_HEADER_SIZE {
            return Err(Error::conversion());
        }
        let count = read_u64(page, 8);
        if count > ((page.len() - LEAF_HEADER_SIZE) / LEAF_ENTRY_SIZE) as u64 {
            return Err(Error::conversion());
        }
        Ok(LeafPage { num_pairs: count as usize, page })
    }

    pub fn num_pairs(&self) -> (r: usize)
        requires
            self.inv(),
        ensures
            r == leaf_count(self.page()),
    {
        self.num_pairs
    }

    /// The metadata of pair `index`.
    pub fn metadata(&self, index: usize) -> (r: LeafEntryMetadata)
        requires
            self.inv(),
            leaf_layout(self.page()),
            index < leaf_count(self.page()),
        ensures
            r.stands_at(self.page(), index as int),
    {
        assert(leaf_region_valid(self.page(), index as int));
        let slot = LEAF_HEADER_SIZE + LEAF_ENTRY_SIZE * index;
        LeafEntryMetadata {
            key_size: read_u64(self.page, slot) as usize,
            key_offset: read_u64(self.page, slot + 8) as usize,
            value_size: read_u64(self.page, slot + 16) as usize,
            value_offset: read_u64(self.page, slot + 24) as usize,
        }
    }

    /// The key of pair `index`.
    pub fn entry_key(&self, index: usize) -> (r: &'a [u8])
        requires
            self.inv(),
            leaf_layout(self.page()),
            index < leaf_count(self.page()),
        ensures
            r@ == leaf_pairs(self.page())[index as int].0,
    {
        let entry = self.metadata(index);
        assert(leaf_region_valid(self.page(), index as int));
        vstd::slice::slice_subrange(
            self.page,
            entry.key_offset,
            entry.key_offset + entry.key_size,
        )
    }

    /// The value of pair `index`.
    pub fn entry_value(&self, index: usize) -> (r: &'a [u8])
        requires
            self.inv(),
            leaf_layout(self.page()),
            index < leaf_count(self.page()),
        ensures
            r@ == leaf_pairs(self.page())[index as int].1,
    {
        let entry = self.metadata(index);
        assert(leaf_region_valid(self.page(), index as int));
        vstd::slice::slice_subrange(
            self.page,
            entry.value_offset,
            entry.value_offset + entry.value_size,
        )
    }

    /// Where `key` stands, or where it would have to be inserted.
    pub fn search_entry_index(&self, key: &[u8]) -> (r: std::result::Result<usize, usize>)
        requires
            self.inv(),
            leaf_wf(self.page()),
        ensures
            match r {
                Ok(index) => {
                    &&& index < leaf_count(self.page())
                    &&& index == rank(pair_keys(leaf_pairs(self.page())), key@)
                    &&& leaf_pairs(self.page())[index as int].0 == key@
                },
                Err(index) => {
                    &&& index == rank(pair_keys(leaf_pairs(self.page())), key@)
                    &&& index <= leaf_count(self.page())
                    &&& index < leaf_count(self.page()) ==> leaf_pairs(
                        self.page(),
                    )[index as int].0 != key@
                },
            },
    {
        let ghost keys = pair_keys(leaf_pairs(self.page()));
        let mut low: usize = 0;
        let mut high: usize = self.num_pairs;
        while low < high
            invariant
                self.inv(),
                leaf_wf(self.page()),
                keys == pair_keys(leaf_pairs(self.page())),
                low <= high <= self.num_pairs,
                forall|i: int| 0 <= i < low ==> key_lt(#[trigger] keys[i], key@),
                forall|i: int| high <= i < keys.len() ==> key_lt(key@, #[trigger] keys[i]),
            decreases high - low,
        {
            let mid = low + (high - low) / 2;
            let mid_key = self.entry_key(mid);
            assert(keys[mid as int] == mid_key@);
            match compare_keys(mid_key, key) {
                KeyOrder::Less => {
                    proof {
                        lemma_below_up_to(keys, key@, mid as int);
                    }
                    low = mid + 1;
                },
                KeyOrder::Equal => {
                    proof {
                        lemma_found_rank(keys, key@, mid as int);
                    }
                    return Ok(mid);
                },
                KeyOrder::Greater => {
                    proof {
                        lemma_above_from(keys, key@, mid as int);
                    }
                    high = mid;
                },
            }
        }
        proof {
            lemma_missing_rank(keys, key@, low as int);
            if low < keys.len() {
                assert(keys[low as int] == leaf_pairs(self.page())[low as int].0);
            }
        }
        Err(low)
    }

    /// The index of the pair under `key`.
    pub fn find_entry_index(&self, key: &[u8]) -> (r: Option<usize>)
        requires
            self.inv(),
            leaf_wf(self.page()),
        ensures
            r is Some <==> pairs_get(leaf_pairs(self.page()), key@) is Some,
            r matches Some(index) ==> index < leaf_count(self.page()) && leaf_pairs(
                self.page(),
            )[index as int].0 == key@ && index == rank(pair_keys(leaf_pairs(self.page())), key@),
    {
        self.search_entry_index(key).ok()
    }

    /// The value under `key`.
    pub fn get_value(&self, key: &[u8]) -> (r: Option<&'a [u8]>)
        requires
            self.inv(),
            leaf_wf(self.page()),
        ensures
            match r {
                Some(value) => pairs_get(leaf_pairs(self.page()), key@) == Some(value@),
                None => pairs_get(leaf_pairs(self.page()), key@) is None,
            },
    {
        match self.find_entry_index(key) {
            Some(index) => Some(self.entry_value(index)),
            None => None,
        }
    }
}

/// The metadata of a pair depends on its own bytes alone.
pub proof fn lemma_leaf_metadata_same(a: Seq<u8>, b: Seq<u8>, i: int)
    requires
        0 <= i,
        a.len() == b.len(),
        leaf_slot(i + 1) <= a.len(),
        same_range(a, b, leaf_slot(i), leaf_slot(i + 1)),
    ensures
        leaf_key_size(a, i) == leaf_key_size(b, i),
        leaf_key_offset(a, i) == leaf_key_offset(b, i),
        leaf_value_size(a, i) == leaf_value_size(b, i),
        leaf_value_offset(a, i) == leaf_value_offset(b, i),
{
    lemma_u64_at_same(a, b, leaf_slot(i));
    lemma_u64_at_same(a, b, leaf_slot(i) + 8);
    lemma_u64_at_same(a, b, leaf_slot(i) + 16);
    lemma_u64_at_same(a, b, leaf_slot(i) + 24);
}

/// The metadata of a pair that moved one slot to the right.
pub proof fn lemma_leaf_metadata_shifted(before: Seq<u8>, after: Seq<u8>, i: int)
    requires
        0 <= i,
        before.len() == after.len(),
        leaf_slot(i + 2) <= before.len(),
        forall|j: int|
            leaf_slot(i) <= j < leaf_slot(i + 1) ==> after[j + 32] == #[trigger] before[j],
    ensures
        leaf_metadata_equal(after, i + 1, before, i),
{
    let s = leaf_slot(i);
    assert(after.subrange(s + 32, s + 40) =~= before.subrange(s, s + 8));
    assert(after.subrange(s + 40, s + 48) =~= before.subrange(s + 8, s + 16));
    assert(after.subrange(s + 48, s + 56) =~= before.subrange(s + 16, s + 24));
    assert(after.subrange(s + 56, s + 64) =~= before.subrange(s + 24, s + 32));
}

/// The header depends on its own bytes alone.
pub proof fn lemma_leaf_header_same(a: Seq<u8>, b: Seq<u8>)
    requires
        a.len() == b.len(),
        24 <= a.len(),
        same_range(a, b, 0, 24),
    ensures
        node_kind(a) == node_kind(b),
        leaf_count(a) == leaf_count(b),
        leaf_end(a) == leaf_end(b),
{
    lemma_u64_at_same(a, b, 0);
    lemma_u64_at_same(a, b, 8);
    lemma_u64_at_same(a, b, 16);
}

/// Writes the metadata of pair `index`.
fn write_leaf_metadata(page: &mut Vec<u8>, index: usize, metadata: LeafEntryMetadata)
    requires
        leaf_slot(index + 1) <= old(page)@.len(),
    ensures
        final(page)@.len() == old(page)@.len(),
        metadata.stands_at(final(page)@, index as int),
        same_range(final(page)@, old(page)@, 0, leaf_slot(index as int)),
        same_range(
            final(page)@,
            old(page)@,
            leaf_slot(index + 1),
            old(page)@.len() as int,
        ),
{
    let size = page.len();
    let slot = LEAF_HEADER_SIZE + LEAF_ENTRY_SIZE * index;
    proof {
        lemma_u64_bytes(metadata.key_size as u64);
        lemma_u64_bytes(metadata.key_offset as u64);
        lemma_u64_bytes(metadata.value_size as u64);
        lemma_u64_bytes(metadata.value_offset as u64);
    }
    let ghost p0 = page@;
    write_u64(page, slot, metadata.key_size as u64);
    let ghost p1 = page@;
    write_u64(page, slot + 8, metadata.key_offset as u64);
    let ghost p2 = page@;
    write_u64(page, slot + 16, metadata.value_size as u64);
    let ghost p3 = page@;
    write_u64(page, slot + 24, metadata.value_offset as u64);
    proof {
        lemma_splice_u64(p0, slot as int, metadata.key_size as u64);
        lemma_splice_u64(p1, slot + 8, metadata.key_offset as u64);
        lemma_splice_u64(p2, slot + 16, metadata.value_size as u64);
        lemma_splice_u64(p3, slot + 24, metadata.value_offset as u64);
        lemma_u64_at_same(p1, page@, slot as int);
        lemma_u64_at_same(p2, page@, slot + 8);
        lemma_u64_at_same(p3, page@, slot + 16);
    }
}

/// Writes the three integers of the header.
fn write_leaf_header(page: &mut Vec<u8>, num_pairs: usize, kv_pairs_end_offset: usize)
    requires
        24 <= old(page)@.len(),
    ensures
        final(page)@.len() == old(page)@.len(),
        node_kind(final(page)@) == LEAF_KIND,
        leaf_count(final(page)@) == num_pairs,
        leaf_end(final(page)@) == kv_pairs_end_offset,
        same_range(final(page)@, old(page)@, 24, old(page)@.len() as int),
{
    proof {
        lemma_u64_bytes(LEAF_KIND);
        lemma_u64_bytes(num_pairs as u64);
        lemma_u64_bytes(kv_pairs_end_offset as u64);
    }
    let ghost p0 = page@;
    write_u64(page, 0, LEAF_KIND);
    let ghost p1 = page@;
    write_u64(page, 8, num_pairs as u64);
    let ghost p2 = page@;
    write_u64(page, 16, kv_pairs_end_offset as u64);
    proof {
        lemma_splice_u64(p0, 0, LEAF_KIND);
        lemma_splice_u64(p1, 8, num_pairs as u64);
        lemma_splice_u64(p2, 16, kv_pairs_end_offset as u64);
        lemma_u64_at_same(p1, page@, 0);
        lemma_u64_at_same(p2, page@, 8);
    }
}

/// A key with its value, both borrowed.
#[derive(Debug, Clone, Copy)]
pub struct LeafEntry<'a> {
    pub key: &'a [u8],
    pub value: &'a [u8],
}

/// The pairs that a run of borrowed entries stands for.
pub open spec fn entry_pairs<'a>(entries: Seq<LeafEntry<'a>>) -> Seq<Pair> {
    Seq::new(entries.len(), |i: int| (entries[i].key@, entries[i].value@))
}

/// Collects the pairs of a leaf, to lay them out afresh.
pub struct LeafBuilder<'a> {
    kv_pairs: Vec<LeafEntry<'a>>,
}

impl<'a> LeafBuilder<'a> {
    /// The pairs collected so far.
    pub closed spec fn pairs(self) -> Seq<Pair> {
        entry_pairs(self.kv_pairs@)
    }

    pub fn empty() -> (r: Self)
        ensures
            r.pairs() == Seq::<Pair>::empty(),
    {
        let r = LeafBuilder { kv_pairs: Vec::new() };
        assert(r.pairs() =~= Seq::<Pair>::empty());
        r
    }

    pub fn from_page(old_page: &'a [u8]) -> (r: Result<Self>)
        requires
            leaf_parses(old_page@) ==> leaf_layout(old_page@),
        ensures
            match r {
                Ok(builder) => leaf_parses(old_page@) && builder.pairs() == leaf_pairs(old_page@),
                Err(e) => !leaf_parses(old_page@) && e.is_conversion(),
            },
    {
        let page = match LeafPage::from_page(old_page) {
            Ok(page) => page,
            Err(e) => return Err(e),
        };
        let count = page.num_pairs();
        let mut kv_pairs: Vec<LeafEntry<'a>> = Vec::new();
        let mut i: usize = 0;
        while i < count
            invariant
                i <= count,
                page.inv(),
                page.page() == old_page@,
                leaf_layout(old_page@),
                count == leaf_count(old_page@),
                kv_pairs@.len() == i,
                forall|j: int|
                    0 <= j < i ==> (#[trigger] kv_pairs@[j]).key@ == leaf_pairs(old_page@)[j].0
                        && kv_pairs@[j].value@ == leaf_pairs(old_page@)[j].1,
            decreases count - i,
        {
            kv_pairs.push(LeafEntry { key: page.entry_key(i), value: page.entry_value(i) });
            i += 1;
        }
        let r = LeafBuilder { kv_pairs };
        assert(r.pairs() =~= leaf_pairs(old_page@));
        Ok(r)
    }

    /// The number of pairs collected so far.
    pub fn len(&self) -> (r: usize)
        ensures
            r == self.pairs().len(),
    {
        self.kv_pairs.len()
    }

    /// Stores `value` under `key`, over the value that was there if there was one.
    pub fn insert(&mut self, key: &'a [u8], value: &'a [u8])
        requires
            keys_sorted(pair_keys(old(self).pairs())),
        ensures
            final(self).pairs() == upsert(old(self).pairs(), key@, value@),
    {
        let ghost pairs = self.pairs();
        let ghost keys = pair_keys(pairs);
        let mut low: usize = 0;
        let mut high: usize = self.kv_pairs.len();
        while low < high
            invariant
                pairs == self.pairs(),
                pairs == old(self).pairs(),
                keys == pair_keys(pairs),
                keys_sorted(keys),
                keys.len() == self.kv_pairs@.len(),
                low <= high <= self.kv_pairs@.len(),
                forall|i: int| 0 <= i < low ==> key_lt(#[trigger] keys[i], key@),
                forall|i: int| high <= i < keys.len() ==> key_lt(key@, #[trigger] keys[i]),
            decreases high - low,
        {
            let mid = low + (high - low) / 2;
            assert(keys[mid as int] == self.kv_pairs@[mid as int].key@);
            match compare_keys(self.kv_pairs[mid].key, key) {
                KeyOrder::Less => {
                    proof {
                        lemma_below_up_to(keys, key@, mid as int);
                    }
                    low = mid + 1;
                },
                KeyOrder::Equal => {
                    proof {
                        lemma_found_rank(keys, key@, mid as int);
                    }
                    let old_key = self.kv_pairs[mid].key;
                    self.kv_pairs[mid] = LeafEntry { key: old_key, value };
                    assert(self.pairs() =~= upsert(pairs, key@, value@));
                    return ;
                },
                KeyOrder::Greater => {
                    proof {
                        lemma_above_from(keys, key@, mid as int);
                    }
                    high = mid;
                },
            }
        }
        proof {
            lemma_missing_rank(keys, key@, low as int);
            if low < keys.len() {
                assert(keys[low as int] == pairs[low as int].0);
            }
        }
        self.kv_pairs.insert(low, LeafEntry { key, value });
        assert(self.pairs() =~= upsert(pairs, key@, value@));
    }

    /// Lays the first half of the pairs out in `left_page` and the rest in `right_page`. The answer
    /// is the first key of the right page.
    pub fn build_split_pages(
        &self,
        left_page: &mut Vec<u8>,
        right_page: &mut Vec<u8>,
    ) -> (separator_key: Vec<u8>)
        requires
            self.pairs().len() >= 2,
            leaf_size(self.pairs().take(self.pairs().len() as int / 2)) <= old(left_page)@.len(),
            leaf_size(self.pairs().skip(self.pairs().len() as int / 2)) <= old(right_page)@.len(),
        ensures
            separator_key@ == self.pairs()[self.pairs().len() as int / 2].0,
            final(left_page)@.len() == old(left_page)@.len(),
            final(right_page)@.len() == old(right_page)@.len(),
            keys_sorted(pair_keys(self.pairs())) ==> leaf_wf(final(left_page)@) && leaf_wf(
                final(right_page)@,
            ),
            leaf_layout(final(left_page)@),
            leaf_layout(final(right_page)@),
            leaf_pairs(final(left_page)@) == self.pairs().take(self.pairs().len() as int / 2),
            leaf_pairs(final(right_page)@) == self.pairs().skip(self.pairs().len() as int / 2),
            leaf_laid_out(
                final(left_page)@,
                old(left_page)@,
                self.pairs().take(self.pairs().len() as int / 2),
            ),
            leaf_laid_out(
                final(right_page)@,
                old(right_page)@,
                self.pairs().skip(self.pairs().len() as int / 2),
            ),
    {
        let mid = self.kv_pairs.len() / 2;
        let all = self.kv_pairs.as_slice();
        let left = vstd::slice::slice_subrange(all, 0, mid);
        let right = vstd::slice::slice_subrange(all, mid, all.len());
        let separator_key = to_vec(self.kv_pairs[mid].key);
        proof {
            assert(entry_pairs(left@) =~= self.pairs().take(mid as int));
            assert(entry_pairs(right@) =~= self.pairs().skip(mid as int));
            if keys_sorted(pair_keys(self.pairs())) {
                lemma_split_run(self.pairs(), mid as int, Seq::empty());
            }
        }
        Self::build_entries_at_buf(left, left_page);
        Self::build_entries_at_buf(right, right_page);
        separator_key
    }

    /// Whether the pairs can be split over two pages of this size.
    pub fn halves_fit(&self, page_size: usize) -> (r: bool)
        ensures
            r == ({
                let mid = self.pairs().len() as int / 2;
                &&& self.pairs().len() >= 2
                &&& leaf_size(self.pairs().take(mid)) <= page_size
                &&& leaf_size(self.pairs().skip(mid)) <= page_size
            }),
    {
        if self.kv_pairs.len() < 2 {
            return false;
        }
        let mid = self.kv_pairs.len() / 2;
        let all = self.kv_pairs.as_slice();
        let left = vstd::slice::slice_subrange(all, 0, mid);
        let right = vstd::slice::slice_subrange(all, mid, all.len());
        proof {
            assert(entry_pairs(left@) =~= self.pairs().take(mid as int));
            assert(entry_pairs(right@) =~= self.pairs().skip(mid as int));
        }
        Self::entries_fit(left, page_size) && Self::entries_fit(right, page_size)
    }

    /// The key that the upper half of the pairs begins with.
    pub fn separator_key(&self) -> (r: Vec<u8>)
        requires
            self.pairs().len() >= 1,
        ensures
            r@ == self.pairs()[self.pairs().len() as int / 2].0,
    {
        to_vec(self.kv_pairs[self.kv_pairs.len() / 2].key)
    }

    /// Whether these pairs can be laid out on a page of this size.
    fn entries_fit(entries: &[LeafEntry<'_>], page_size: usize) -> (r: bool)
        ensures
            r == (leaf_size(entry_pairs(entries@)) <= page_size),
    {
        if page_size < LEAF_HEADER_SIZE {
            return false;
        }
        let ghost pairs = entry_pairs(entries@);
        let mut room: usize = page_size - LEAF_HEADER_SIZE;
        let mut i: usize = 0;
        while i < entries.len()
            invariant
                i <= entries@.len(),
                pairs == entry_pairs(entries@),
                room == page_size - 24 - 32 * i - pairs_size(pairs, i as nat),
            decreases entries@.len() - i,
        {
            let key_size = entries[i].key.len();
            let value_size = entries[i].value.len();
            proof {
                lemma_pairs_size_mono(pairs, (i + 1) as nat, pairs.len());
                assert(pairs[i as int] == (entries@[i as int].key@, entries@[i as int].value@));
            }
            if room < LEAF_ENTRY_SIZE {
                return false;
            }
            room = room - LEAF_ENTRY_SIZE;
            if room < key_size {
                return false;
            }
            room = room - key_size;
            if room < value_size {
                return false;
            }
            room = room - value_size;
            i += 1;
        }
        true
    }

    /// Lays the pairs out in `page`.
    pub fn build_page_at_buf(&self, page: &mut Vec<u8>)
        requires
            leaf_size(self.pairs()) <= old(page)@.len(),
        ensures
            final(page)@.len() == old(page)@.len(),
            keys_sorted(pair_keys(self.pairs())) ==> leaf_wf(final(page)@),
            leaf_layout(final(page)@),
            leaf_pairs(final(page)@) == self.pairs(),
            leaf_laid_out(final(page)@, old(page)@, self.pairs()),
    {
        Self::build_entries_at_buf(self.kv_pairs.as_slice(), page);
    }

    /// Writes a pair right below `cursor`, and its metadata as those of pair `index`. The answer is
    /// where the pair begins.
    fn write_entry(
        page: &mut Vec<u8>,
        index: usize,
        key: &[u8],
        value: &[u8],
        cursor: usize,
    ) -> (key_offset: usize)
        requires
            cursor <= old(page)@.len(),
            leaf_slot(index + 1) + key@.len() + value@.len() <= cursor,
        ensures
            key_offset == cursor - key@.len() - value@.len(),
            final(page)@.len() == old(page)@.len(),
            same_range(final(page)@, old(page)@, 0, leaf_slot(index as int)),
            same_range(final(page)@, old(page)@, leaf_slot(index + 1), key_offset as int),
            same_range(final(page)@, old(page)@, cursor as int, old(page)@.len() as int),
            leaf_key_size(final(page)@, index as int) == key@.len(),
            leaf_value_size(final(page)@, index as int) == value@.len(),
            leaf_key_offset(final(page)@, index as int) == key_offset,
            leaf_value_offset(final(page)@, index as int) == key_offset + key@.len(),
            leaf_pair(final(page)@, index as int) == (key@, value@),
    {
        let size = page.len();
        let value_offset = cursor - value.len();
        write_data_at_offset(page, value, value_offset);
        let key_offset = value_offset - key.len();
        write_data_at_offset(page, key, key_offset);
        let metadata = LeafEntryMetadata {
            key_size: key.len(),
            key_offset,
            value_size: value.len(),
            value_offset,
        };
        write_leaf_metadata(page, index, metadata);
        proof {
            assert(bytes_at(page@, key_offset as nat, key@.len()) =~= key@);
            assert(bytes_at(page@, value_offset as nat, value@.len()) =~= value@);
        }
        key_offset
    }

    fn build_entries_at_buf(entries: &[LeafEntry<'_>], page: &mut Vec<u8>)
        requires
            leaf_size(entry_pairs(entries@)) <= old(page)@.len(),
        ensures
            final(page)@.len() == old(page)@.len(),
            keys_sorted(pair_keys(entry_pairs(entries@))) ==> leaf_wf(final(page)@),
            leaf_layout(final(page)@),
            leaf_pairs(final(page)@) == entry_pairs(entries@),
            leaf_laid_out(final(page)@, old(page)@, entry_pairs(entries@)),
    {
        let ghost pairs = entry_pairs(entries@);
        let size = page.len();
        let count = entries.len();
        let mut kv_data_cursor = size;
        let mut i: usize = 0;
        while i < count
            invariant
                i <= count,
                count == entries@.len(),
                pairs == entry_pairs(entries@),
                page@.len() == size,
                leaf_size(pairs) <= size,
                kv_data_cursor == size - pairs_size(pairs, i as nat),
                old(page)@.len() == size,
                same_range(page@, old(page)@, leaf_slot(i as int), kv_data_cursor as int),
                forall|j: int|
                    0 <= j < i ==> #[trigger] leaf_pair_laid_out(page@, pairs, j, size as nat),
            decreases count - i,
        {
            proof {
                lemma_pairs_size_mono(pairs, (i + 1) as nat, count as nat);
            }
            let ghost before = page@;
            let key = entries[i].key;
            let value = entries[i].value;
            assert(pairs[i as int] == (key@, value@));
            let key_offset = Self::write_entry(page, i, key, value, kv_data_cursor);
            proof {
                assert(leaf_pair_laid_out(page@, pairs, i as int, size as nat));
                assert forall|j: int| 0 <= j < i implies #[trigger] leaf_pair_laid_out(
                    page@,
                    pairs,
                    j,
                    size as nat,
                ) by {
                    assert(leaf_pair_laid_out(before, pairs, j, size as nat));
                    lemma_pairs_size_mono(pairs, (j + 1) as nat, i as nat);
                    lemma_leaf_metadata_same(before, page@, j);
                    assert(leaf_pair(page@, j).0 =~= leaf_pair(before, j).0);
                    assert(leaf_pair(page@, j).1 =~= leaf_pair(before, j).1);
                }
            }
            kv_data_cursor = key_offset;
            i += 1;
        }
        let ghost before = page@;
        write_leaf_header(page, count, kv_data_cursor);
        proof {
            assert forall|j: int| 0 <= j < count implies #[trigger] leaf_pair_laid_out(
                page@,
                pairs,
                j,
                size as nat,
            ) by {
                assert(leaf_pair_laid_out(before, pairs, j, size as nat));
                lemma_leaf_metadata_same(before, page@, j);
                lemma_pairs_size_mono(pairs, (j + 1) as nat, count as nat);
                assert(leaf_pair(page@, j).0 =~= leaf_pair(before, j).0);
                assert(leaf_pair(page@, j).1 =~= leaf_pair(before, j).1);
            }
            lemma_laid_out(page@, pairs);
        }
    }
}

/// Whether pair `i` of `a` has the metadata that pair `j` of `b` has.
pub open spec fn leaf_metadata_equal(a: Seq<u8>, i: int, b: Seq<u8>, j: int) -> bool {
    &&& leaf_key_size(a, i) == leaf_key_size(b, j)
    &&& leaf_key_offset(a, i) == leaf_key_offset(b, j)
    &&& leaf_value_size(a, i) == leaf_value_size(b, j)
    &&& leaf_value_offset(a, i) == leaf_value_offset(b, j)
}

/// Whether the bytes of pair `j` of `b` are the same in `a`.
pub open spec fn leaf_bytes_kept(a: Seq<u8>, b: Seq<u8>, j: int) -> bool {
    same_range(
        a,
        b,
        leaf_key_offset(b, j) as int,
        (leaf_key_offset(b, j) + leaf_kv_size(b, j)) as int,
    )
}

/// A page in which pair `p` was replaced (`shift` is 0) or added (`shift` is 1), while all other
/// pairs kept their metadata and their bytes.
proof fn lemma_leaf_change(before: Seq<u8>, after: Seq<u8>, p: int, shift: int, pair: Pair)
    requires
        leaf_layout(before),
        after.len() == before.len(),
        node_kind(after) == LEAF_KIND,
        shift == 0 || shift == 1,
        leaf_count(after) == leaf_count(before) + shift,
        0 <= p < leaf_count(after),
        leaf_slot(leaf_count(after) as int) <= leaf_end(after) <= leaf_end(before),
        forall|i: int|
            0 <= i < p ==> #[trigger] leaf_metadata_equal(after, i, before, i)
                && leaf_bytes_kept(after, before, i),
        forall|i: int|
            p < i < leaf_count(after) ==> #[trigger] leaf_metadata_equal(
                after,
                i,
                before,
                i - shift,
            ) && leaf_bytes_kept(after, before, i - shift),
        leaf_region_valid(after, p),
        leaf_pair(after, p) == pair,
        forall|i: int|
            0 <= i < leaf_count(after) && i != p ==> #[trigger] leaf_regions_apart(after, p, i),
    ensures
        leaf_layout(after),
        leaf_pairs(after) == (if shift == 0 {
            leaf_pairs(before).update(p, pair)
        } else {
            leaf_pairs(before).insert(p, pair)
        }),
{
    assert forall|i: int| 0 <= i < leaf_count(after) implies #[trigger] leaf_region_valid(
        after,
        i,
    ) by {
        if i < p {
            assert(leaf_metadata_equal(after, i, before, i));
            assert(leaf_region_valid(before, i));
        } else if i > p {
            assert(leaf_metadata_equal(after, i, before, i - shift));
            assert(leaf_region_valid(before, i - shift));
        }
    }
    assert forall|i: int, j: int|
        0 <= i < j < leaf_count(after) implies #[trigger] leaf_regions_apart(after, i, j) by {
        if i == p {
        } else if j == p {
            assert(leaf_regions_apart(after, p, i));
        } else {
            let i0 = if i < p { i } else { i - shift };
            let j0 = if j < p { j } else { j - shift };
            assert(leaf_metadata_equal(after, i, before, i0));
            assert(leaf_metadata_equal(after, j, before, j0));
            assert(leaf_regions_apart(before, i0, j0));
        }
    }
    let expected = if shift == 0 {
        leaf_pairs(before).update(p, pair)
    } else {
        leaf_pairs(before).insert(p, pair)
    };
    assert forall|i: int| 0 <= i < leaf_count(after) implies #[trigger] leaf_pairs(after)[i]
        == expected[i] by {
        if i != p {
            let i0 = if i < p { i } else { i - shift };
            assert(leaf_metadata_equal(after, i, before, i0));
            assert(leaf_bytes_kept(after, before, i0));
            assert(leaf_region_valid(before, i0));
            assert(leaf_pair(after, i).0 =~= leaf_pair(before, i0).0);
            assert(leaf_pair(after, i).1 =~= leaf_pair(before, i0).1);
        }
    }
    assert(leaf_pairs(after) =~= expected);
}

/// Whether there is a pair under `key`, and another value fits in its place.
pub open spec fn leaf_replaces_in_place(page: Seq<u8>, key: Seq<u8>, value: Seq<u8>) -> bool {
    let i = rank(pair_keys(leaf_pairs(page)), key) as int;
    &&& i < leaf_count(page)
    &&& leaf_pairs(page)[i].0 == key
    &&& leaf_kv_size(page, i) >= key.len() + value.len()
}

/// Where the pairs of a leaf begin, once `value` is stored under `key` in place.
pub open spec fn leaf_end_after(page: Seq<u8>, key: Seq<u8>, value: Seq<u8>) -> int {
    if leaf_replaces_in_place(page, key, value) {
        leaf_end(page) as int
    } else {
        leaf_end(page) - key.len() - value.len()
    }
}

/// Changes a leaf page in place.
pub struct LeafPageMutator {
    page: Vec<u8>,
}

impl LeafPageMutator {
    /// The bytes of the page.
    pub closed spec fn page(self) -> Seq<u8> {
        self.page@
    }

    pub fn from_page(page: Vec<u8>) -> (r: Self)
        ensures
            r.page() == page@,
    {
        LeafPageMutator { page }
    }

    /// Gives the page back.
    pub fn into_page(self) -> (r: Vec<u8>)
        ensures
            r@ == self.page(),
    {
        self.page
    }

    /// Whether a pair of this size can be added without rebuilding the page.
    pub fn fits(&self, key: &[u8], value: &[u8]) -> (r: Result<bool>)
        requires
            self.page().len() >= 24 ==> leaf_layout(self.page()),
            key@.len() + value@.len() <= usize::MAX,
        ensures
            match r {
                Ok(fits) => {
                    &&& self.page().len() >= 24
                    &&& fits == leaf_fits(self.page(), key@.len(), value@.len())
                },
                Err(e) => self.page().len() < 24 && e.is_conversion(),
            },
    {
        if self.page.len() < LEAF_HEADER_SIZE {
            return Err(Error::conversion());
        }
        Ok(leaf_has_room(self.page.as_slice(), key.len(), value.len()))
    }

    /// Stores `value` under `key`, over the value that was there if there was one.
    pub fn insert(&mut self, key: &[u8], value: &[u8]) -> (r: Result<()>)
        requires
            leaf_parses(old(self).page()) ==> leaf_wf(old(self).page()) && (leaf_fits(
                old(self).page(),
                key@.len(),
                value@.len(),
            ) || leaf_replaces_in_place(old(self).page(), key@, value@)),
        ensures
            match r {
                Ok(()) => {
                    &&& leaf_parses(old(self).page())
                    &&& final(self).page().len() == old(self).page().len()
                    &&& leaf_wf(final(self).page())
                    &&& leaf_pairs(final(self).page()) == upsert(
                        leaf_pairs(old(self).page()),
                        key@,
                        value@,
                    )
                    &&& leaf_end(final(self).page()) == leaf_end_after(
                        old(self).page(),
                        key@,
                        value@,
                    )
                },
                Err(e) => {
                    &&& !leaf_parses(old(self).page())
                    &&& e.is_conversion()
                    &&& final(self).page() == old(self).page()
                },
            },
    {
        let ghost pairs = leaf_pairs(self.page@);
        let search_result = match LeafPage::from_page(self.page.as_slice()) {
            Ok(leaf) => leaf.search_entry_index(key),
            Err(e) => return Err(e),
        };
        match search_result {
            Ok(entry_index) => self.insert_existing_kv(entry_index, key, value),
            Err(insert_index) => self.insert_new_kv(insert_index, key, value),
        }
        proof {
            crate::kv::entries::lemma_upsert(pairs, key@, value@);
        }
        Ok(())
    }

    /// Replaces the value of pair `entry_index`: in its own place where the new value is not longer
    /// than the old one, else in fresh space.
    #[verifier::rlimit(50)]
    #[verifier::spinoff_prover]
    fn insert_existing_kv(&mut self, entry_index: usize, key: &[u8], value: &[u8])
        requires
            leaf_wf(old(self).page()),
            entry_index < leaf_count(old(self).page()),
            leaf_fits(old(self).page(), key@.len(), value@.len()) || key@.len() + value@.len()
                <= leaf_kv_size(old(self).page(), entry_index as int),
            leaf_pairs(old(self).page())[entry_index as int].0 == key@,
        ensures
            final(self).page().len() == old(self).page().len(),
            leaf_layout(final(self).page()),
            leaf_pairs(final(self).page()) == leaf_pairs(old(self).page()).update(
                entry_index as int,
                (key@, value@),
            ),
            leaf_end(final(self).page()) == if leaf_kv_size(old(self).page(), entry_index as int)
                >= key@.len() + value@.len() {
                leaf_end(old(self).page()) as int
            } else {
                leaf_end(old(self).page()) - key@.len() - value@.len()
            },
    {
        let ghost before = self.page@;
        let size = self.page.len();
        let old_entry = match LeafPage::from_page(self.page.as_slice()) {
            Ok(leaf) => leaf.metadata(entry_index),
            Err(_) => LeafEntryMetadata {
                key_size: 0,
                key_offset: 0,
                value_size: 0,
                value_offset: 0,
            },
        };
        assert(leaf_region_valid(before, entry_index as int));
        assert(leaf_pair(before, entry_index as int).0.len() == old_entry.key_size);
        let new_kv_size = key.len() + value.len();
        let key_offset: usize;
        let value_offset: usize;
        if old_entry.kv_size() >= new_kv_size {
            key_offset = old_entry.key_offset;
            value_offset = key_offset + key.len();
            self.write_kv(key, value, key_offset, value_offset);
        } else {
            let num_pairs = read_u64(self.page.as_slice(), 8) as usize;
            let offsets = self.append_kv(key, value);
            key_offset = offsets.0;
            value_offset = offsets.1;
            write_leaf_header(&mut self.page, num_pairs, key_offset);
        }
        let metadata = LeafEntryMetadata {
            key_size: key.len(),
            key_offset,
            value_size: value.len(),
            value_offset,
        };
        let ghost written = self.page@;
        write_leaf_metadata(&mut self.page, entry_index, metadata);
        proof {
            let after = self.page@;
            let p = entry_index as int;
            if old_entry.key_size + old_entry.value_size >= new_kv_size {
                lemma_leaf_header_same(before, after);
            } else {
                lemma_leaf_header_same(written, after);
            }
            assert forall|i: int| 0 <= i < leaf_count(before) && i != p implies
                #[trigger] leaf_metadata_equal(after, i, before, i) && leaf_bytes_kept(
                after,
                before,
                i,
            ) && leaf_regions_apart(after, p, i) by {
                lemma_leaf_metadata_same(before, after, i);
                assert(leaf_region_valid(before, i));
                assert(leaf_regions_apart(before, i, p) || leaf_regions_apart(before, p, i));
            }
            assert forall|i: int| p < i < leaf_count(after) implies
                #[trigger] leaf_metadata_equal(after, i, before, i - 0) && leaf_bytes_kept(
                after,
                before,
                i - 0,
            ) by {
                assert(leaf_metadata_equal(after, i, before, i));
            }
            assert forall|i: int| 0 <= i < leaf_count(after) && i != p implies
                #[trigger] leaf_regions_apart(after, p, i) by {
                assert(leaf_metadata_equal(after, i, before, i));
            }
            assert(leaf_pair(after, p).0 =~= key@);
            assert(leaf_pair(after, p).1 =~= value@);
            lemma_leaf_change(before, after, p, 0, (key@, value@));
        }
    }

    /// Adds a pair in front of pair `insert_index`.
    fn insert_new_kv(&mut self, insert_index: usize, key: &[u8], value: &[u8])
        requires
            leaf_layout(old(self).page()),
            leaf_fits(old(self).page(), key@.len(), value@.len()),
            insert_index <= leaf_count(old(self).page()),
        ensures
            final(self).page().len() == old(self).page().len(),
            leaf_layout(final(self).page()),
            leaf_pairs(final(self).page()) == leaf_pairs(old(self).page()).insert(
                insert_index as int,
                (key@, value@),
            ),
            leaf_end(final(self).page()) == leaf_end(old(self).page()) - key@.len() - value@.len(),
    {
        let ghost before = self.page@;
        let old_num_pairs = read_u64(self.page.as_slice(), 8) as usize;
        let (key_offset, value_offset) = self.append_kv(key, value);
        let new_entry = LeafEntryMetadata {
            key_size: key.len(),
            key_offset,
            value_size: value.len(),
            value_offset,
        };
        write_leaf_header(&mut self.page, old_num_pairs + 1, key_offset);
        let ghost written = self.page@;
        self.insert_metadata(insert_index, old_num_pairs, new_entry);
        proof {
            let after = self.page@;
            let p = insert_index as int;
            lemma_leaf_header_same(written, after);
            assert forall|i: int| 0 <= i < p implies #[trigger] leaf_metadata_equal(
                after,
                i,
                before,
                i,
            ) && leaf_bytes_kept(after, before, i) && leaf_regions_apart(after, p, i) by {
                lemma_leaf_metadata_same(before, after, i);
                assert(leaf_region_valid(before, i));
            }
            assert forall|i: int| p < i < leaf_count(after) implies #[trigger] leaf_metadata_equal(
                after,
                i,
                before,
                i - 1,
            ) && leaf_bytes_kept(after, before, i - 1) && leaf_regions_apart(after, p, i) by {
                assert forall|j: int| leaf_slot(i - 1) <= j < leaf_slot(i) implies after[j + 32]
                    == #[trigger] before[j] by {
                    assert(written[j] == before[j]);
                }
                lemma_leaf_metadata_shifted(before, after, i - 1);
                assert(leaf_region_valid(before, i - 1));
            }
            assert forall|i: int| 0 <= i < leaf_count(after) && i != p implies
                #[trigger] leaf_regions_apart(after, p, i) by {
                if i < p {
                    assert(leaf_metadata_equal(after, i, before, i));
                } else {
                    assert(leaf_metadata_equal(after, i, before, i - 1));
                }
            }
            assert(leaf_pair(after, p).0 =~= key@);
            assert(leaf_pair(after, p).1 =~= value@);
            lemma_leaf_change(before, after, p, 1, (key@, value@));
        }
    }

    /// Writes a pair right below the pairs that are there.
    fn append_kv(&mut self, key: &[u8], value: &[u8]) -> (r: (usize, usize))
        requires
            leaf_layout(old(self).page()),
            key@.len() + value@.len() <= leaf_end(old(self).page()),
        ensures
            r.0 == leaf_end(old(self).page()) - key@.len() - value@.len(),
            r.1 == r.0 + key@.len(),
            final(self).page() == splice(
                splice(old(self).page(), r.0 as int, key@),
                r.1 as int,
                value@,
            ),
    {
        let end = read_u64(self.page.as_slice(), 16) as usize;
        let key_offset = end - key.len() - value.len();
        let value_offset = key_offset + key.len();
        self.write_kv(key, value, key_offset, value_offset);
        (key_offset, value_offset)
    }

    fn write_kv(&mut self, key: &[u8], value: &[u8], key_offset: usize, value_offset: usize)
        requires
            key_offset + key@.len() <= old(self).page().len(),
            value_offset + value@.len() <= old(self).page().len(),
        ensures
            final(self).page() == splice(
                splice(old(self).page(), key_offset as int, key@),
                value_offset as int,
                value@,
            ),
    {
        write_data_at_offset(&mut self.page, key, key_offset);
        write_data_at_offset(&mut self.page, value, value_offset);
    }

    /// Makes room in the metadata in front of pair `insert_index`, and writes `new_entry` there.
    fn insert_metadata(
        &mut self,
        insert_index: usize,
        old_num_pairs: usize,
        new_entry: LeafEntryMetadata,
    )
        requires
            insert_index <= old_num_pairs,
            leaf_slot(old_num_pairs + 1) <= old(self).page().len(),
        ensures
            final(self).page().len() == old(self).page().len(),
            new_entry.stands_at(final(self).page(), insert_index as int),
            same_range(final(self).page(), old(self).page(), 0, leaf_slot(insert_index as int)),
            same_range(
                final(self).page(),
                old(self).page(),
                leaf_slot(old_num_pairs + 1),
                old(self).page().len() as int,
            ),
            forall|i: int|
                leaf_slot(insert_index as int) <= i < leaf_slot(old_num_pairs as int)
                    ==> final(self).page()[i + 32] == #[trigger] old(self).page()[i],
    {
        let size = self.page.len();
        let from = LEAF_HEADER_SIZE + LEAF_ENTRY_SIZE * insert_index;
        let to = LEAF_HEADER_SIZE + LEAF_ENTRY_SIZE * old_num_pairs;
        copy_within(&mut self.page, from, to, from + LEAF_ENTRY_SIZE);
        write_leaf_metadata(&mut self.page, insert_index, new_entry);
    }
}

/// Whether pairs were laid out afresh in a page: the metadata from the front, the pairs from the back,
/// and what was in between before is still there.
pub open spec fn leaf_laid_out(page: Seq<u8>, before: Seq<u8>, pairs: Seq<Pair>) -> bool {
    &&& node_kind(page) == LEAF_KIND
    &&& leaf_count(page) == pairs.len()
    &&& leaf_end(page) == page.len() - pairs_size(pairs, pairs.len())
    &&& forall|i: int|
        0 <= i < pairs.len() ==> #[trigger] leaf_pair_laid_out(page, pairs, i, page.len())
    &&& same_range(page, before, leaf_slot(pairs.len() as int), leaf_end(page) as int)
}

/// Whether pair `i` stands in the page where a fresh layout puts it: below all earlier pairs.
pub open spec fn leaf_pair_laid_out(page: Seq<u8>, pairs: Seq<Pair>, i: int, size: nat) -> bool {
    &&& leaf_key_size(page, i) == pairs[i].0.len()
    &&& leaf_value_size(page, i) == pairs[i].1.len()
    &&& leaf_key_offset(page, i) == size - pairs_size(pairs, (i + 1) as nat)
    &&& leaf_value_offset(page, i) == leaf_key_offset(page, i) + leaf_key_size(page, i)
    &&& leaf_pair(page, i) == pairs[i]
}

proof fn lemma_laid_out(page: Seq<u8>, pairs: Seq<Pair>)
    requires
        page.len() <= usize::MAX,
        leaf_size(pairs) <= page.len(),
        node_kind(page) == LEAF_KIND,
        leaf_count(page) == pairs.len(),
        leaf_end(page) == page.len() - pairs_size(pairs, pairs.len()),
        forall|j: int|
            0 <= j < pairs.len() ==> #[trigger] leaf_pair_laid_out(page, pairs, j, page.len()),
    ensures
        leaf_layout(page),
        keys_sorted(pair_keys(pairs)) ==> leaf_wf(page),
        leaf_pairs(page) == pairs,
{
    assert forall|i: int| 0 <= i < leaf_count(page) implies #[trigger] leaf_region_valid(
        page,
        i,
    ) by {
        assert(leaf_pair_laid_out(page, pairs, i, page.len()));
        lemma_pairs_size_mono(pairs, (i + 1) as nat, pairs.len());
    }
    assert forall|i: int, j: int| 0 <= i < j < leaf_count(page) implies #[trigger] leaf_regions_apart(
        page,
        i,
        j,
    ) by {
        assert(leaf_pair_laid_out(page, pairs, i, page.len()));
        assert(leaf_pair_laid_out(page, pairs, j, page.len()));
        lemma_pairs_size_mono(pairs, (i + 1) as nat, j as nat);
    }
    assert forall|i: int| 0 <= i < pairs.len() implies #[trigger] leaf_pairs(page)[i]
        == pairs[i] by {
        assert(leaf_pair_laid_out(page, pairs, i, page.len()));
    }
    assert(leaf_pairs(page) =~= pairs);
}

/// Where pair `i` of a leaf stands: its metadata, four numbers, right behind the header and that of the
/// pairs in front of it, and its key and value where the metadata says.
pub proof fn law_leaf_pair_is_where_its_metadata_says(page: Seq<u8>, i: int)
    requires
        leaf_layout(page),
        0 <= i < u64_at(page, 8),
    ensures
        ({
            let at = 24 + 32 * i;
            let key_size = u64_at(page, at) as int;
            let key_offset = u64_at(page, at + 8) as int;
            let value_size = u64_at(page, at + 16) as int;
            let value_offset = u64_at(page, at + 24) as int;
            &&& leaf_pairs(page).len() == u64_at(page, 8)
            &&& leaf_pairs(page)[i].0 == page.subrange(key_offset, key_offset + key_size)
            &&& leaf_pairs(page)[i].1 == page.subrange(value_offset, value_offset + value_size)
            &&& u64_at(page, 0) == 0
            &&& u64_at(page, 16) <= key_offset
            &&& key_offset + key_size == value_offset
            &&& value_offset + value_size <= page.len()
        }),
{
    assert(leaf_region_valid(page, i));
}

/// A leaf has room for one more pair if, and only if, what lies free between the metadata of its pairs
/// and their data takes the metadata of one more, and its key and value.
pub proof fn law_leaf_room_is_counted(page: Seq<u8>, key_len: nat, value_len: nat)
    requires
        leaf_layout(page),
    ensures
        leaf_fits(page, key_len, value_len) <==> u64_at(page, 16) - (24 + 32 * u64_at(page, 8)) >= 32
            + key_len + value_len,
{
}

/// Pairs that were laid out on a page are read from it again, in the same order, whatever it held
/// before: it parses as a leaf, and its data takes up the end of the page.
pub proof fn law_leaf_layout_round_trip(page: Seq<u8>, before: Seq<u8>, pairs: Seq<Pair>)
    requires
        page.len() <= usize::MAX,
        leaf_size(pairs) <= page.len(),
        leaf_laid_out(page, before, pairs),
    ensures
        node_kind(page) == LEAF_KIND,
        leaf_parses(page),
        leaf_layout(page),
        keys_sorted(pair_keys(pairs)) ==> leaf_wf(page),
        leaf_pairs(page) == pairs,
        leaf_end(page) == page.len() - pairs_size(pairs, pairs.len()),
{
    lemma_laid_out(page, pairs);
}

/// Whether a pair of this size can be appended to a leaf.
pub fn leaf_has_room(page: &[u8], key_len: usize, value_len: usize) -> (r: bool)
    requires
        leaf_layout(page@),
        key_len + value_len <= usize::MAX,
    ensures
        r == leaf_fits(page@, key_len as nat, value_len as nat),
{
    let num_pairs = read_u64(page, 8) as usize;
    let end = read_u64(page, 16) as usize;
    let kv_size = key_len + value_len;
    if end < kv_size {
        return false;
    }
    let key_offset = end - kv_size;
    if key_offset < LEAF_HEADER_SIZE + LEAF_ENTRY_SIZE {
        return false;
    }
    num_pairs <= (key_offset - LEAF_HEADER_SIZE - LEAF_ENTRY_SIZE) / LEAF_ENTRY_SIZE
}

/// Whether the key and value of entry `i` lie in the page as they should.
fn region_is_valid(leaf: &LeafPage<'_>, i: usize) -> (r: bool)
    requires
        leaf.inv(),
        i < leaf_count(leaf.page()),
    ensures
        r == leaf_region_valid(leaf.page(), i as int),
{
    let page = leaf.page;
    let size = page.len() as u64;
    let slot = LEAF_HEADER_SIZE + LEAF_ENTRY_SIZE * i;
    let end = read_u64(page, 16);
    let key_size = read_u64(page, slot);
    let key_offset = read_u64(page, slot + 8);
    let value_size = read_u64(page, slot + 16);
    let value_offset = read_u64(page, slot + 24);
    if end > key_offset || key_offset > value_offset || value_offset > size {
        false
    } else {
        key_size == value_offset - key_offset && value_size <= size - value_offset
    }
}

/// Whether the leaf is in good order: all keys and values lie in the page, apart from each other,
/// and the keys are sorted.
pub fn leaf_is_well_formed(leaf: &LeafPage<'_>) -> (r: bool)
    requires
        leaf.inv(),
        node_kind(leaf.page()) == LEAF_KIND,
    ensures
        r == leaf_wf(leaf.page()),
{
    let page = leaf.page;
    let size = page.len() as u64;
    let count = leaf.num_pairs;
    let end = read_u64(page, 16);
    if end > size || end < (LEAF_HEADER_SIZE + LEAF_ENTRY_SIZE * count) as u64 {
        return false;
    }
    let mut i: usize = 0;
    while i < count
        invariant
            i <= count,
            count == leaf_count(page@),
            leaf.inv(),
            leaf.page() == page@,
            forall|j: int| 0 <= j < i ==> #[trigger] leaf_region_valid(page@, j),
        decreases count - i,
    {
        if !region_is_valid(leaf, i) {
            return false;
        }
        i += 1;
    }
    let mut i: usize = 0;
    while i < count
        invariant
            i <= count,
            count == leaf_count(page@),
            leaf.inv(),
            leaf.page() == page@,
            forall|j: int| 0 <= j < count ==> #[trigger] leaf_region_valid(page@, j),
            forall|j: int, k: int|
                0 <= j < k < count && j < i ==> #[trigger] leaf_regions_apart(page@, j, k),
        decreases count - i,
    {
        let mut j: usize = i + 1;
        while j < count
            invariant
                i < j <= count,
                count == leaf_count(page@),
                leaf.inv(),
                leaf.page() == page@,
                forall|m: int| 0 <= m < count ==> #[trigger] leaf_region_valid(page@, m),
                forall|k: int| i < k < j ==> #[trigger] leaf_regions_apart(page@, i as int, k),
            decreases count - j,
        {
            if !regions_are_apart(leaf, i, j) {
                return false;
            }
            j += 1;
        }
        i += 1;
    }
    assert(leaf_layout(page@));
    let mut i: usize = 1;
    while i < count
        invariant
            1 <= i,
            count == leaf_count(page@),
            leaf.inv(),
            leaf.page() == page@,
            leaf_layout(page@),
            i <= count || count == 0,
            keys_sorted(pair_keys(leaf_pairs(page@)).take(if i <= count {
                i as int
            } else {
                0
            })),
        decreases count - i,
    {
        let ghost keys = pair_keys(leaf_pairs(page@));
        let before = leaf.entry_key(i - 1);
        let key = leaf.entry_key(i);
        match compare_keys(before, key) {
            KeyOrder::Less => {},
            _ => {
                assert(keys[i - 1] == before@ && keys[i as int] == key@);
                return false;
            },
        }
        proof {
            lemma_sorted_extended(keys, i as int);
        }
        i += 1;
    }
    proof {
        let keys = pair_keys(leaf_pairs(page@));
        assert(keys.take(count as int) =~= keys);
    }
    true
}

fn regions_are_apart(leaf: &LeafPage<'_>, i: usize, j: usize) -> (r: bool)
    requires
        leaf.inv(),
        i < leaf_count(leaf.page()),
        j < leaf_count(leaf.page()),
        leaf_region_valid(leaf.page(), i as int),
        leaf_region_valid(leaf.page(), j as int),
    ensures
        r == leaf_regions_apart(leaf.page(), i as int, j as int),
{
    let page = leaf.page;
    let size = page.len();
    let slot_i = LEAF_HEADER_SIZE + LEAF_ENTRY_SIZE * i;
    let slot_j = LEAF_HEADER_SIZE + LEAF_ENTRY_SIZE * j;
    let start_i = read_u64(page, slot_i + 8);
    let end_i = read_u64(page, slot_i + 24) + read_u64(page, slot_i + 16);
    let start_j = read_u64(page, slot_j + 8);
    let end_j = read_u64(page, slot_j + 24) + read_u64(page, slot_j + 16);
    end_i <= start_j || end_j <= start_i
}

} // verus!
