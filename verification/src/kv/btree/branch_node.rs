//! Branch pages.
//!
//! A branch page starts with a header of three integers: the kind, the number of children, and the
//! offset at which the keys' bytes begin. Behind it stand the children's metadata (key size, key
//! offset, child page and the checksum of that page). The bytes of the keys fill the page from its
//! end downwards.
//!
//! The key of a child is the lowest key that may be found under it. The first child has none: what
//! stands in the place of its key is ignored.

use crate::kv::bytes::{
    bytes_at, copy_within, lemma_splice_u128, lemma_splice_u64, lemma_u128_at_same,
    lemma_u128_bytes, lemma_u64_at_same, lemma_u64_bytes, read_u128, read_u64, same_range, splice,
    to_vec, u128_at, u64_at, write_data_at_offset, write_u128, write_u64,
};
use crate::kv::btree::node::{node_kind, BRANCH_KIND};
use crate::kv::error::{Error, Result};
use crate::kv::keys::{
    compare_keys, key_lt, keys_sorted, lemma_above_from, lemma_below_up_to, lemma_found_rank,
    lemma_key_lt_transitive, lemma_missing_rank, lemma_rank_through, lemma_sorted_extended, rank,
    rank_through, splits_through, KeyOrder,
};
use vstd::prelude::*;

verus! {

/// The size of a branch's header.
pub const BRANCH_HEADER_SIZE: usize = 24;

/// The size of a child's metadata.
pub const BRANCH_ENTRY_SIZE: usize = 40;

/// A child of a branch: its key, its page, and the checksum of that page.
pub struct Child {
    pub key: Seq<u8>,
    pub page_id: u64,
    pub checksum: u128,
}

/// Where the metadata of child `i` stands.
pub open spec fn branch_slot(i: int) -> int {
    24 + 40 * i
}

/// The number of children.
pub open spec fn branch_count(page: Seq<u8>) -> nat {
    u64_at(page, 8)
}

/// Where the keys' bytes begin.
pub open spec fn branch_end(page: Seq<u8>) -> nat {
    u64_at(page, 16)
}

pub open spec fn branch_key_size(page: Seq<u8>, i: int) -> nat {
    u64_at(page, branch_slot(i))
}

pub open spec fn branch_key_offset(page: Seq<u8>, i: int) -> nat {
    u64_at(page, branch_slot(i) + 8)
}

pub open spec fn branch_child_page_id(page: Seq<u8>, i: int) -> u64 {
    u64_at(page, branch_slot(i) + 16) as u64
}

pub open spec fn branch_child_checksum(page: Seq<u8>, i: int) -> u128 {
    u128_at(page, branch_slot(i) + 24) as u128
}

/// Child `i` of the page.
pub open spec fn branch_child(page: Seq<u8>, i: int) -> Child {
    Child {
        key: bytes_at(page, branch_key_offset(page, i), branch_key_size(page, i)),
        page_id: branch_child_page_id(page, i),
        checksum: branch_child_checksum(page, i),
    }
}

/// The children of the page, in the order in which they stand there.
pub open spec fn branch_children(page: Seq<u8>) -> Seq<Child> {
    Seq::new(branch_count(page), |i: int| branch_child(page, i))
}

/// The keys that separate the children: those of all children but the first.
pub open spec fn separators(children: Seq<Child>) -> Seq<Seq<u8>> {
    Seq::new((children.len() - 1) as nat, |i: int| children[i + 1].key)
}

/// Whether the key of child `i` lies within the part of the page that holds keys.
pub open spec fn branch_region_valid(page: Seq<u8>, i: int) -> bool {
    &&& branch_end(page) <= branch_key_offset(page, i)
    &&& branch_key_offset(page, i) + branch_key_size(page, i) <= page.len()
}

/// Whether the header, the metadata and the keys fit the page, and there is a child.
pub open spec fn branch_layout(page: Seq<u8>) -> bool {
    &&& 24 <= page.len() <= usize::MAX
    &&& node_kind(page) == BRANCH_KIND
    &&& 1 <= branch_count(page)
    &&& branch_slot(branch_count(page) as int) <= branch_end(page) <= page.len()
    &&& forall|i: int| 0 <= i < branch_count(page) ==> #[trigger] branch_region_valid(page, i)
}

/// Whether the page is a branch: a valid layout, and separators that are strictly increasing.
pub open spec fn branch_wf(page: Seq<u8>) -> bool {
    &&& branch_layout(page)
    &&& keys_sorted(separators(branch_children(page)))
}

/// Whether a buffer is long enough for the branch that its header announces.
pub open spec fn branch_parses(page: Seq<u8>) -> bool {
    page.len() >= 24 && branch_slot(branch_count(page) as int) <= page.len()
}

/// Whether another child with a key of this size fits between the metadata and the keys.
pub open spec fn branch_fits(page: Seq<u8>, key_len: nat) -> bool {
    branch_slot(branch_count(page) as int + 1) + key_len <= branch_end(page)
}

/// The index of the child under which `key` belongs.
pub open spec fn child_index(children: Seq<Child>, key: Seq<u8>) -> int {
    rank_through(separators(children), key) as int
}

/// The children with one more under `key`, or with another page for the child that has the key.
pub open spec fn add_child(
    children: Seq<Child>,
    key: Seq<u8>,
    page_id: u64,
    checksum: u128,
) -> Seq<Child> {
    let p = rank(separators(children), key) as int;
    if p < separators(children).len() && separators(children)[p] == key {
        children.update(p + 1, Child { key, page_id, checksum })
    } else {
        children.insert(p + 1, Child { key, page_id, checksum })
    }
}

/// The children with another page for child `index`.
pub open spec fn set_child(
    children: Seq<Child>,
    index: int,
    page_id: u64,
    checksum: u128,
) -> Seq<Child> {
    children.update(index, Child { key: children[index].key, page_id, checksum })
}

/// The children with an empty key for the first one.
pub open spec fn first_key_dropped(children: Seq<Child>) -> Seq<Child> {
    if children.len() == 0 {
        children
    } else {
        children.update(
            0,
            Child {
                key: Seq::empty(),
                page_id: children[0].page_id,
                checksum: children[0].checksum,
            },
        )
    }
}

/// How many bytes the keys of the first `n` children take, the first child left out.
pub open spec fn keys_size(children: Seq<Child>, n: nat) -> nat
    decreases n,
{
    if n <= 1 {
        0
    } else {
        keys_size(children, (n - 1) as nat) + children[n - 1].key.len()
    }
}

/// How many bytes a branch needs for these children.
pub open spec fn branch_size(children: Seq<Child>) -> nat {
    (24 + 40 * children.len() + keys_size(children, children.len())) as nat
}

pub proof fn lemma_keys_size_mono(children: Seq<Child>, m: nat, n: nat)
    requires
        m <= n <= children.len(),
    ensures
        keys_size(children, m) <= keys_size(children, n),
    decreases n,
{
    if m < n {
        lemma_keys_size_mono(children, m, (n - 1) as nat);
    }
}

/// The metadata of a child.
#[derive(Debug, Clone, Copy)]
pub struct BranchEntryMetadata {
    pub key_size: usize,
    pub key_offset: usize,
    pub child_page_id: u64,
    pub child_page_checksum: u128,
}

impl BranchEntryMetadata {
    /// Whether this is the metadata that the page holds for child `i`.
    pub open spec fn stands_at(self, page: Seq<u8>, i: int) -> bool {
        &&& branch_key_size(page, i) == self.key_size
        &&& branch_key_offset(page, i) == self.key_offset
        &&& branch_child_page_id(page, i) == self.child_page_id
        &&& branch_child_checksum(page, i) == self.child_page_checksum
    }
}

/// A branch page that is only read.
pub struct BranchPage<'a> {
    num_entries: usize,
    page: &'a [u8],
}

impl<'a> BranchPage<'a> {
    /// The bytes of the page.
    pub closed spec fn page(self) -> Seq<u8> {
        self.page@
    }

    /// Whether the buffer holds the header and the metadata that it announces.
    pub closed spec fn inv(self) -> bool {
        &&& branch_parses(self.page@)
        &&& self.num_entries == branch_count(self.page@)
    }

    pub fn from_page(page: &'a [u8]) -> (r: Result<Self>)
        ensures
            match r {
                Ok(branch) => branch_parses(page@) && branch.page() == page@ && branch.inv(),
                Err(e) => !branch_parses(page@) && e.is_conversion(),
            },
    {
        if page.len() < BRANCH_HEADER_SIZE {
            return Err(Error::conversion());
        }
        let count = read_u64(page, 8);
        if count > ((page.len() - BRANCH_HEADER_SIZE) / BRANCH_ENTRY_SIZE) as u64 {
            return Err(Error::conversion());
        }
        Ok(BranchPage { num_entries: count as usize, page })
    }

    pub fn num_entries(&self) -> (r: usize)
        requires
            self.inv(),
        ensures
            r == branch_count(self.page()),
    {
        self.num_entries
    }

    /// The page of child `index`.
    pub fn child_page_id_at_index(&self, index: usize) -> (r: u64)
        requires
            self.inv(),
            index < branch_count(self.page()),
        ensures
            r == branch_children(self.page())[index as int].page_id,
    {
        let size = self.page.len();
        let slot = BRANCH_HEADER_SIZE + BRANCH_ENTRY_SIZE * index;
        read_u64(self.page, slot + 16)
    }

    /// The checksum of the page of child `index`.
    pub fn child_page_checksum_at_index(&self, index: usize) -> (r: u128)
        requires
            self.inv(),
            index < branch_count(self.page()),
        ensures
            r == branch_children(self.page())[index as int].checksum,
    {
        let size = self.page.len();
        let slot = BRANCH_HEADER_SIZE + BRANCH_ENTRY_SIZE * index;
        read_u128(self.page, slot + 24)
    }

    /// The key of child `index`.
    pub fn entry_key(&self, index: usize) -> (r: &'a [u8])
        requires
            self.inv(),
            branch_layout(self.page()),
            index < branch_count(self.page()),
        ensures
            r@ == branch_children(self.page())[index as int].key,
    {
        assert(branch_region_valid(self.page(), index as int));
        let slot = BRANCH_HEADER_SIZE + BRANCH_ENTRY_SIZE * index;
        let key_size = read_u64(self.page, slot) as usize;
        let key_offset = read_u64(self.page, slot + 8) as usize;
        vstd::slice::slice_subrange(self.page, key_offset, key_offset + key_size)
    }

    /// Where the child with `key` stands, or where it would have to be inserted.
    pub fn search_entry_index(&self, key: &[u8]) -> (r: std::result::Result<usize, usize>)
        requires
            self.inv(),
            branch_wf(self.page()),
        ensures
            ({
                let keys = separators(branch_children(self.page()));
                match r {
                    Ok(index) => {
                        &&& index == rank(keys, key@) + 1
                        &&& index < branch_count(self.page())
                        &&& keys[index - 1] == key@
                    },
                    Err(index) => {
                        &&& index == rank(keys, key@) + 1
                        &&& index <= branch_count(self.page())
                        &&& index < branch_count(self.page()) ==> keys[index - 1] != key@
                    },
                }
            }),
    {
        let ghost keys = separators(branch_children(self.page()));
        let mut low: usize = 1;
        let mut high: usize = self.num_entries;
        while low < high
            invariant
                self.inv(),
                branch_wf(self.page()),
                keys == separators(branch_children(self.page())),
                1 <= low <= high <= self.num_entries,
                forall|i: int| 0 <= i < low - 1 ==> key_lt(#[trigger] keys[i], key@),
                forall|i: int| high - 1 <= i < keys.len() ==> key_lt(key@, #[trigger] keys[i]),
            decreases high - low,
        {
            let mid = low + (high - low) / 2;
            let mid_key = self.entry_key(mid);
            assert(keys[mid - 1] == mid_key@);
            match compare_keys(mid_key, key) {
                KeyOrder::Less => {
                    proof {
                        lemma_below_up_to(keys, key@, mid - 1);
                    }
                    low = mid + 1;
                },
                KeyOrder::Equal => {
                    proof {
                        lemma_found_rank(keys, key@, mid - 1);
                    }
                    return Ok(mid);
                },
                KeyOrder::Greater => {
                    proof {
                        lemma_above_from(keys, key@, mid - 1);
                    }
                    high = mid;
                },
            }
        }
        proof {
            lemma_missing_rank(keys, key@, low - 1);
        }
        Err(low)
    }

    /// The index of the child under which `key` belongs.
    pub fn child_index_for_key(&self, key: &[u8]) -> (r: usize)
        requires
            self.inv(),
            branch_wf(self.page()),
        ensures
            r == child_index(branch_children(self.page()), key@),
            r < branch_count(self.page()),
    {
        let ghost keys = separators(branch_children(self.page()));
        let mut low: usize = 0;
        let mut high: usize = self.num_entries - 1;
        while low < high
            invariant
                self.inv(),
                branch_wf(self.page()),
                keys == separators(branch_children(self.page())),
                low <= high <= self.num_entries - 1,
                forall|i: int| 0 <= i < low ==> !key_lt(key@, #[trigger] keys[i]),
                forall|i: int| high <= i < keys.len() ==> key_lt(key@, #[trigger] keys[i]),
            decreases high - low,
        {
            let mid = low + (high - low) / 2;
            let mid_key = self.entry_key(mid + 1);
            assert(keys[mid as int] == mid_key@);
            match compare_keys(key, mid_key) {
                KeyOrder::Less => {
                    proof {
                        lemma_above_from(keys, key@, mid as int);
                    }
                    high = mid;
                },
                _ => {
                    proof {
                        assert forall|i: int| 0 <= i < mid + 1 implies !key_lt(
                            key@,
                            #[trigger] keys[i],
                        ) by {
                            if i < mid && key_lt(key@, keys[i]) {
                                lemma_key_lt_transitive(key@, keys[i], keys[mid as int]);
                            }
                        }
                    }
                    low = mid + 1;
                },
            }
        }
        proof {
            assert(splits_through(keys, key@, low as int));
            lemma_rank_through(keys, key@, low as int);
        }
        low
    }

    /// The page of the child under which `key` belongs.
    pub fn child_page_id_for_key(&self, key: &[u8]) -> (r: u64)
        requires
            self.inv(),
            branch_wf(self.page()),
        ensures
            ({
                let children = branch_children(self.page());
                r == children[child_index(children, key@)].page_id
            }),
    {
        let index = self.child_index_for_key(key);
        self.child_page_id_at_index(index)
    }
}

/// The metadata of a child depends on its own bytes alone.
pub proof fn lemma_branch_metadata_same(a: Seq<u8>, b: Seq<u8>, i: int)
    requires
        0 <= i,
        a.len() == b.len(),
        branch_slot(i + 1) <= a.len(),
        same_range(a, b, branch_slot(i), branch_slot(i + 1)),
    ensures
        branch_metadata_equal(a, i, b, i),
{
    lemma_u64_at_same(a, b, branch_slot(i));
    lemma_u64_at_same(a, b, branch_slot(i) + 8);
    lemma_u64_at_same(a, b, branch_slot(i) + 16);
    lemma_u128_at_same(a, b, branch_slot(i) + 24);
}

/// Whether child `i` of `a` has the metadata that child `j` of `b` has.
pub open spec fn branch_metadata_equal(a: Seq<u8>, i: int, b: Seq<u8>, j: int) -> bool {
    &&& branch_key_size(a, i) == branch_key_size(b, j)
    &&& branch_key_offset(a, i) == branch_key_offset(b, j)
    &&& branch_child_page_id(a, i) == branch_child_page_id(b, j)
    &&& branch_child_checksum(a, i) == branch_child_checksum(b, j)
}

/// The metadata of a child that moved one slot to the right.
pub proof fn lemma_branch_metadata_shifted(before: Seq<u8>, after: Seq<u8>, i: int)
    requires
        0 <= i,
        before.len() == after.len(),
        branch_slot(i + 2) <= before.len(),
        forall|j: int|
            branch_slot(i) <= j < branch_slot(i + 1) ==> after[j + 40] == #[trigger] before[j],
    ensures
        branch_metadata_equal(after, i + 1, before, i),
{
    let s = branch_slot(i);
    assert(after.subrange(s + 40, s + 48) =~= before.subrange(s, s + 8));
    assert(after.subrange(s + 48, s + 56) =~= before.subrange(s + 8, s + 16));
    assert(after.subrange(s + 56, s + 64) =~= before.subrange(s + 16, s + 24));
    assert(after.subrange(s + 64, s + 80) =~= before.subrange(s + 24, s + 40));
}

/// The header depends on its own bytes alone.
pub proof fn lemma_branch_header_same(a: Seq<u8>, b: Seq<u8>)
    requires
        a.len() == b.len(),
        24 <= a.len(),
        same_range(a, b, 0, 24),
    ensures
        node_kind(a) == node_kind(b),
        branch_count(a) == branch_count(b),
        branch_end(a) == branch_end(b),
{
    lemma_u64_at_same(a, b, 0);
    lemma_u64_at_same(a, b, 8);
    lemma_u64_at_same(a, b, 16);
}

/// Writes the page and the checksum of child `index`.
fn write_branch_child(page: &mut Vec<u8>, index: usize, page_id: u64, checksum: u128)
    requires
        branch_slot(index + 1) <= old(page)@.len(),
    ensures
        final(page)@.len() == old(page)@.len(),
        branch_key_size(final(page)@, index as int) == branch_key_size(old(page)@, index as int),
        branch_key_offset(final(page)@, index as int) == branch_key_offset(
            old(page)@,
            index as int,
        ),
        branch_child_page_id(final(page)@, index as int) == page_id,
        branch_child_checksum(final(page)@, index as int) == checksum,
        same_range(final(page)@, old(page)@, 0, branch_slot(index as int)),
        same_range(
            final(page)@,
            old(page)@,
            branch_slot(index + 1),
            old(page)@.len() as int,
        ),
{
    let size = page.len();
    let slot = BRANCH_HEADER_SIZE + BRANCH_ENTRY_SIZE * index;
    proof {
        lemma_u64_bytes(page_id);
        lemma_u128_bytes(checksum);
    }
    let ghost p0 = page@;
    write_u64(page, slot + 16, page_id);
    let ghost p1 = page@;
    write_u128(page, slot + 24, checksum);
    proof {
        lemma_splice_u64(p0, slot + 16, page_id);
        lemma_splice_u128(p1, slot + 24, checksum);
        lemma_u64_at_same(p0, page@, slot as int);
        lemma_u64_at_same(p0, page@, slot + 8);
        lemma_u64_at_same(p1, page@, slot + 16);
    }
}

/// Writes the metadata of child `index`.
fn write_branch_metadata(page: &mut Vec<u8>, index: usize, metadata: BranchEntryMetadata)
    requires
        branch_slot(index + 1) <= old(page)@.len(),
    ensures
        final(page)@.len() == old(page)@.len(),
        metadata.stands_at(final(page)@, index as int),
        same_range(final(page)@, old(page)@, 0, branch_slot(index as int)),
        same_range(
            final(page)@,
            old(page)@,
            branch_slot(index + 1),
            old(page)@.len() as int,
        ),
{
    let size = page.len();
    let slot = BRANCH_HEADER_SIZE + BRANCH_ENTRY_SIZE * index;
    proof {
        lemma_u64_bytes(metadata.key_size as u64);
        lemma_u64_bytes(metadata.key_offset as u64);
    }
    let ghost p0 = page@;
    write_u64(page, slot, metadata.key_size as u64);
    let ghost p1 = page@;
    write_u64(page, slot + 8, metadata.key_offset as u64);
    let ghost p2 = page@;
    write_branch_child(page, index, metadata.child_page_id, metadata.child_page_checksum);
    proof {
        lemma_splice_u64(p0, slot as int, metadata.key_size as u64);
        lemma_splice_u64(p1, slot + 8, metadata.key_offset as u64);
        lemma_u64_at_same(p1, p2, slot as int);
    }
}

/// Writes the three integers of the header.
fn write_branch_header(page: &mut Vec<u8>, num_entries: usize, key_data_end_offset: usize)
    requires
        24 <= old(page)@.len(),
    ensures
        final(page)@.len() == old(page)@.len(),
        node_kind(final(page)@) == BRANCH_KIND,
        branch_count(final(page)@) == num_entries,
        branch_end(final(page)@) == key_data_end_offset,
        same_range(final(page)@, old(page)@, 24, old(page)@.len() as int),
{
    proof {
        lemma_u64_bytes(BRANCH_KIND);
        lemma_u64_bytes(num_entries as u64);
        lemma_u64_bytes(key_data_end_offset as u64);
    }
    let ghost p0 = page@;
    write_u64(page, 0, BRANCH_KIND);
    let ghost p1 = page@;
    write_u64(page, 8, num_entries as u64);
    let ghost p2 = page@;
    write_u64(page, 16, key_data_end_offset as u64);
    proof {
        lemma_splice_u64(p0, 0, BRANCH_KIND);
        lemma_splice_u64(p1, 8, num_entries as u64);
        lemma_splice_u64(p2, 16, key_data_end_offset as u64);
        lemma_u64_at_same(p1, page@, 0);
        lemma_u64_at_same(p2, page@, 8);
    }
}

/// A child of a branch, its key borrowed.
#[derive(Debug, Clone, Copy)]
pub struct BranchEntry<'a> {
    pub key: &'a [u8],
    pub child_page_id: u64,
    pub child_page_checksum: u128,
}

impl<'a> BranchEntry<'a> {
    /// The child that this entry stands for.
    pub open spec fn child(self) -> Child {
        Child {
            key: self.key@,
            page_id: self.child_page_id,
            checksum: self.child_page_checksum,
        }
    }
}

/// The children that a run of borrowed entries stands for.
pub open spec fn entry_children<'a>(entries: Seq<BranchEntry<'a>>) -> Seq<Child> {
    Seq::new(entries.len(), |i: int| entries[i].child())
}

/// Collects the children of a branch, to lay them out afresh.
pub struct BranchBuilder<'a> {
    branch_entries: Vec<BranchEntry<'a>>,
}

impl<'a> BranchBuilder<'a> {
    /// The children collected so far.
    pub closed spec fn children(self) -> Seq<Child> {
        entry_children(self.branch_entries@)
    }

    pub fn from_page(old_page: &'a [u8]) -> (r: Result<Self>)
        requires
            branch_parses(old_page@) && branch_count(old_page@) > 0 ==> branch_layout(old_page@),
        ensures
            match r {
                Ok(builder) => {
                    &&& branch_parses(old_page@)
                    &&& builder.children() == branch_children(old_page@)
                },
                Err(e) => !branch_parses(old_page@) && e.is_conversion(),
            },
    {
        let page = match BranchPage::from_page(old_page) {
            Ok(page) => page,
            Err(e) => return Err(e),
        };
        let count = page.num_entries();
        let mut branch_entries: Vec<BranchEntry<'a>> = Vec::new();
        let mut i: usize = 0;
        while i < count
            invariant
                i <= count,
                page.inv(),
                page.page() == old_page@,
                count > 0 ==> branch_layout(old_page@),
                count == branch_count(old_page@),
                branch_entries@.len() == i,
                forall|j: int|
                    0 <= j < i ==> (#[trigger] branch_entries@[j]).child() == branch_children(
                        old_page@,
                    )[j],
            decreases count - i,
        {
            branch_entries.push(
                BranchEntry {
                    key: page.entry_key(i),
                    child_page_id: page.child_page_id_at_index(i),
                    child_page_checksum: page.child_page_checksum_at_index(i),
                },
            );
            i += 1;
        }
        let r = BranchBuilder { branch_entries };
        assert(r.children() =~= branch_children(old_page@));
        Ok(r)
    }

    /// A root over the two pages that the old root was split into.
    pub fn new_root(
        left_page_id: u64,
        left_page_checksum: u128,
        separator_key: &'a [u8],
        right_page_id: u64,
        right_page_checksum: u128,
    ) -> (r: Self)
        ensures
            r.children() == seq![
                Child {
                    key: Seq::<u8>::empty(),
                    page_id: left_page_id,
                    checksum: left_page_checksum,
                },
                Child {
                    key: separator_key@,
                    page_id: right_page_id,
                    checksum: right_page_checksum,
                },
            ],
    {
        let mut branch_entries: Vec<BranchEntry<'a>> = Vec::new();
        let no_key = vstd::slice::slice_subrange(separator_key, 0, 0);
        assert(no_key@ =~= Seq::<u8>::empty());
        branch_entries.push(
            BranchEntry {
                key: no_key,
                child_page_id: left_page_id,
                child_page_checksum: left_page_checksum,
            },
        );
        branch_entries.push(
            BranchEntry {
                key: separator_key,
                child_page_id: right_page_id,
                child_page_checksum: right_page_checksum,
            },
        );
        let r = BranchBuilder { branch_entries };
        assert(r.children() =~= seq![
            Child { key: Seq::<u8>::empty(), page_id: left_page_id, checksum: left_page_checksum },
            Child { key: separator_key@, page_id: right_page_id, checksum: right_page_checksum },
        ]);
        r
    }

    /// The number of children collected so far.
    pub fn len(&self) -> (r: usize)
        ensures
            r == self.children().len(),
    {
        self.branch_entries.len()
    }

    /// Adds a child under `key`, or gives the child that has the key another page.
    pub fn insert(&mut self, key: &'a [u8], child_page_id: u64, child_page_checksum: u128)
        requires
            old(self).children().len() >= 1,
            keys_sorted(separators(old(self).children())),
        ensures
            final(self).children() == add_child(
                old(self).children(),
                key@,
                child_page_id,
                child_page_checksum,
            ),
    {
        let ghost children = self.children();
        let ghost keys = separators(children);
        let mut low: usize = 1;
        let mut high: usize = self.branch_entries.len();
        while low < high
            invariant
                children == self.children(),
                children == old(self).children(),
                keys == separators(children),
                keys_sorted(keys),
                keys.len() + 1 == self.branch_entries@.len(),
                1 <= low <= high <= self.branch_entries@.len(),
                forall|i: int| 0 <= i < low - 1 ==> key_lt(#[trigger] keys[i], key@),
                forall|i: int| high - 1 <= i < keys.len() ==> key_lt(key@, #[trigger] keys[i]),
            decreases high - low,
        {
            let mid = low + (high - low) / 2;
            assert(keys[mid - 1] == self.branch_entries@[mid as int].key@);
            match compare_keys(self.branch_entries[mid].key, key) {
                KeyOrder::Less => {
                    proof {
                        lemma_below_up_to(keys, key@, mid - 1);
                    }
                    low = mid + 1;
                },
                KeyOrder::Equal => {
                    proof {
                        lemma_found_rank(keys, key@, mid - 1);
                    }
                    let old_key = self.branch_entries[mid].key;
                    self.branch_entries[mid] = BranchEntry {
                        key: old_key,
                        child_page_id,
                        child_page_checksum,
                    };
                    assert(self.children() =~= add_child(
                        children,
                        key@,
                        child_page_id,
                        child_page_checksum,
                    ));
                    return ;
                },
                KeyOrder::Greater => {
                    proof {
                        lemma_above_from(keys, key@, mid - 1);
                    }
                    high = mid;
                },
            }
        }
        proof {
            lemma_missing_rank(keys, key@, low - 1);
        }
        self.branch_entries.insert(low, BranchEntry { key, child_page_id, child_page_checksum });
        assert(self.children() =~= add_child(children, key@, child_page_id, child_page_checksum));
    }

    /// Lays the first half of the children out in `left_page` and the rest in `right_page`. The
    /// answer is the key of the first child on the right; that page no longer holds it.
    pub fn build_split_pages(
        &self,
        left_page: &mut Vec<u8>,
        right_page: &mut Vec<u8>,
    ) -> (separator_key: Vec<u8>)
        requires
            self.children().len() >= 2,
            branch_size(self.children().take(self.children().len() as int / 2)) <= old(
                left_page,
            )@.len(),
            branch_size(self.children().skip(self.children().len() as int / 2)) <= old(
                right_page,
            )@.len(),
        ensures
            separator_key@ == self.children()[self.children().len() as int / 2].key,
            final(left_page)@.len() == old(left_page)@.len(),
            final(right_page)@.len() == old(right_page)@.len(),
            keys_sorted(separators(self.children())) ==> branch_wf(final(left_page)@) && branch_wf(
                final(right_page)@,
            ),
            branch_layout(final(left_page)@),
            branch_layout(final(right_page)@),
            branch_children(final(left_page)@) == first_key_dropped(
                self.children().take(self.children().len() as int / 2),
            ),
            branch_children(final(right_page)@) == first_key_dropped(
                self.children().skip(self.children().len() as int / 2),
            ),
            branch_laid_out(
                final(left_page)@,
                old(left_page)@,
                self.children().take(self.children().len() as int / 2),
            ),
            branch_laid_out(
                final(right_page)@,
                old(right_page)@,
                self.children().skip(self.children().len() as int / 2),
            ),
    {
        let mid = self.branch_entries.len() / 2;
        let all = self.branch_entries.as_slice();
        let left = vstd::slice::slice_subrange(all, 0, mid);
        let right = vstd::slice::slice_subrange(all, mid, all.len());
        let separator_key = to_vec(self.branch_entries[mid].key);
        proof {
            assert(entry_children(left@) =~= self.children().take(mid as int));
            assert(entry_children(right@) =~= self.children().skip(mid as int));
            if keys_sorted(separators(self.children())) {
                lemma_separators_split(self.children(), mid as int);
            }
        }
        Self::build_entries_at_buf(left, left_page);
        Self::build_entries_at_buf(right, right_page);
        separator_key
    }

    /// Whether the children can be split over two pages of this size.
    pub fn halves_fit(&self, page_size: usize) -> (r: bool)
        ensures
            r == ({
                let mid = self.children().len() as int / 2;
                &&& branch_size(self.children().take(mid)) <= page_size
                &&& branch_size(self.children().skip(mid)) <= page_size
            }),
    {
        let mid = self.branch_entries.len() / 2;
        let all = self.branch_entries.as_slice();
        let left = vstd::slice::slice_subrange(all, 0, mid);
        let right = vstd::slice::slice_subrange(all, mid, all.len());
        proof {
            assert(entry_children(left@) =~= self.children().take(mid as int));
            assert(entry_children(right@) =~= self.children().skip(mid as int));
        }
        Self::entries_fit(left, page_size) && Self::entries_fit(right, page_size)
    }

    /// The key that the upper half of the children begins with.
    pub fn separator_key(&self) -> (r: Vec<u8>)
        requires
            self.children().len() >= 1,
        ensures
            r@ == self.children()[self.children().len() as int / 2].key,
    {
        to_vec(self.branch_entries[self.branch_entries.len() / 2].key)
    }

    /// Whether these children can be laid out on a page of this size.
    fn entries_fit(entries: &[BranchEntry<'_>], page_size: usize) -> (r: bool)
        ensures
            r == (branch_size(entry_children(entries@)) <= page_size),
    {
        if page_size < BRANCH_HEADER_SIZE {
            return false;
        }
        let ghost children = entry_children(entries@);
        let mut room: usize = page_size - BRANCH_HEADER_SIZE;
        let mut i: usize = 0;
        while i < entries.len()
            invariant
                i <= entries@.len(),
                children == entry_children(entries@),
                room == page_size - 24 - 40 * i - keys_size(children, i as nat),
            decreases entries@.len() - i,
        {
            let key_size: usize = if i == 0 {
                0
            } else {
                entries[i].key.len()
            };
            proof {
                lemma_keys_size_mono(children, (i + 1) as nat, children.len());
                assert(children[i as int] == entries@[i as int].child());
            }
            if room < BRANCH_ENTRY_SIZE {
                return false;
            }
            room = room - BRANCH_ENTRY_SIZE;
            if room < key_size {
                return false;
            }
            room = room - key_size;
            i += 1;
        }
        true
    }

    /// Lays the children out in `page`.
    pub fn build_page_at_buf(&self, page: &mut Vec<u8>)
        requires
            branch_size(self.children()) <= old(page)@.len(),
        ensures
            final(page)@.len() == old(page)@.len(),
            self.children().len() >= 1 ==> branch_layout(final(page)@),
            self.children().len() >= 1 && keys_sorted(separators(self.children())) ==> branch_wf(
                final(page)@,
            ),
            branch_children(final(page)@) == first_key_dropped(self.children()),
            branch_laid_out(final(page)@, old(page)@, self.children()),
    {
        Self::build_entries_at_buf(self.branch_entries.as_slice(), page);
    }

    /// Writes a key right below `cursor`, and the metadata of child `index`. The answer is where
    /// the key begins.
    fn write_entry(
        page: &mut Vec<u8>,
        index: usize,
        key: &[u8],
        child_page_id: u64,
        child_page_checksum: u128,
        cursor: usize,
    ) -> (key_offset: usize)
        requires
            cursor <= old(page)@.len(),
            branch_slot(index + 1) + key@.len() <= cursor,
        ensures
            key_offset == cursor - key@.len(),
            final(page)@.len() == old(page)@.len(),
            same_range(final(page)@, old(page)@, 0, branch_slot(index as int)),
            same_range(final(page)@, old(page)@, branch_slot(index + 1), key_offset as int),
            same_range(final(page)@, old(page)@, cursor as int, old(page)@.len() as int),
            branch_key_size(final(page)@, index as int) == key@.len(),
            branch_key_offset(final(page)@, index as int) == key_offset,
            branch_child(final(page)@, index as int) == (Child {
                key: key@,
                page_id: child_page_id,
                checksum: child_page_checksum,
            }),
    {
        let size = page.len();
        let key_offset = cursor - key.len();
        write_data_at_offset(page, key, key_offset);
        let metadata = BranchEntryMetadata {
            key_size: key.len(),
            key_offset,
            child_page_id,
            child_page_checksum,
        };
        write_branch_metadata(page, index, metadata);
        proof {
            assert(bytes_at(page@, key_offset as nat, key@.len()) =~= key@);
        }
        key_offset
    }

    fn build_entries_at_buf(entries: &[BranchEntry<'_>], page: &mut Vec<u8>)
        requires
            branch_size(entry_children(entries@)) <= old(page)@.len(),
        ensures
            final(page)@.len() == old(page)@.len(),
            entries@.len() >= 1 ==> branch_layout(final(page)@),
            entries@.len() >= 1 && keys_sorted(separators(entry_children(entries@)))
                ==> branch_wf(final(page)@),
            branch_children(final(page)@) == first_key_dropped(entry_children(entries@)),
            branch_laid_out(final(page)@, old(page)@, entry_children(entries@)),
    {
        let ghost children = entry_children(entries@);
        let size = page.len();
        let count = entries.len();
        let mut key_data_cursor = size;
        let mut i: usize = 0;
        while i < count
            invariant
                i <= count,
                count == entries@.len(),
                children == entry_children(entries@),
                page@.len() == size,
                branch_size(children) <= size,
                key_data_cursor == size - keys_size(children, i as nat),
                old(page)@.len() == size,
                same_range(page@, old(page)@, branch_slot(i as int), key_data_cursor as int),
                forall|j: int|
                    0 <= j < i ==> #[trigger] branch_child_laid_out(
                        page@,
                        children,
                        j,
                        size as nat,
                    ),
            decreases count - i,
        {
            proof {
                lemma_keys_size_mono(children, (i + 1) as nat, count as nat);
            }
            let ghost before = page@;
            let entry = entries[i];
            assert(children[i as int] == entry.child());
            let key = if i == 0 {
                vstd::slice::slice_subrange(entry.key, 0, 0)
            } else {
                entry.key
            };
            assert(i == 0 ==> key@ =~= Seq::<u8>::empty());
            let key_offset = Self::write_entry(
                page,
                i,
                key,
                entry.child_page_id,
                entry.child_page_checksum,
                key_data_cursor,
            );
            proof {
                assert(branch_child_laid_out(page@, children, i as int, size as nat));
                assert forall|j: int| 0 <= j < i implies #[trigger] branch_child_laid_out(
                    page@,
                    children,
                    j,
                    size as nat,
                ) by {
                    assert(branch_child_laid_out(before, children, j, size as nat));
                    lemma_keys_size_mono(children, (j + 1) as nat, i as nat);
                    lemma_branch_metadata_same(before, page@, j);
                    assert(branch_child(page@, j).key =~= branch_child(before, j).key);
                }
            }
            key_data_cursor = key_offset;
            i += 1;
        }
        let ghost before = page@;
        write_branch_header(page, count, key_data_cursor);
        proof {
            assert forall|j: int| 0 <= j < count implies #[trigger] branch_child_laid_out(
                page@,
                children,
                j,
                size as nat,
            ) by {
                assert(branch_child_laid_out(before, children, j, size as nat));
                lemma_branch_metadata_same(before, page@, j);
                lemma_keys_size_mono(children, (j + 1) as nat, count as nat);
                assert(branch_child(page@, j).key =~= branch_child(before, j).key);
            }
            lemma_branch_laid_out(page@, children);
        }
    }
}

/// Whether children were laid out afresh in a page: the metadata from the front, the keys from the
/// back, and what was in between before is still there.
pub open spec fn branch_laid_out(page: Seq<u8>, before: Seq<u8>, children: Seq<Child>) -> bool {
    &&& node_kind(page) == BRANCH_KIND
    &&& branch_count(page) == children.len()
    &&& branch_end(page) == page.len() - keys_size(children, children.len())
    &&& forall|i: int|
        0 <= i < children.len() ==> #[trigger] branch_child_laid_out(
            page,
            children,
            i,
            page.len(),
        )
    &&& same_range(page, before, branch_slot(children.len() as int), branch_end(page) as int)
}

/// Whether child `i` stands in the page where a fresh layout puts it.
pub open spec fn branch_child_laid_out(
    page: Seq<u8>,
    children: Seq<Child>,
    i: int,
    size: nat,
) -> bool {
    &&& branch_key_size(page, i) == (if i == 0 {
        0
    } else {
        children[i].key.len()
    })
    &&& branch_key_offset(page, i) == size - keys_size(children, (i + 1) as nat)
    &&& branch_child(page, i) == first_key_dropped(children)[i]
}

proof fn lemma_branch_laid_out(page: Seq<u8>, children: Seq<Child>)
    requires
        page.len() <= usize::MAX,
        branch_size(children) <= page.len(),
        node_kind(page) == BRANCH_KIND,
        branch_count(page) == children.len(),
        branch_end(page) == page.len() - keys_size(children, children.len()),
        forall|j: int|
            0 <= j < children.len() ==> #[trigger] branch_child_laid_out(
                page,
                children,
                j,
                page.len(),
            ),
    ensures
        children.len() >= 1 ==> branch_layout(page),
        children.len() >= 1 && keys_sorted(separators(children)) ==> branch_wf(page),
        branch_children(page) == first_key_dropped(children),
{
    assert forall|i: int| 0 <= i < branch_count(page) implies #[trigger] branch_region_valid(
        page,
        i,
    ) by {
        assert(branch_child_laid_out(page, children, i, page.len()));
        lemma_keys_size_mono(children, (i + 1) as nat, children.len());
        lemma_keys_size_mono(children, i as nat, (i + 1) as nat);
    }
    assert forall|i: int| 0 <= i < children.len() implies #[trigger] branch_children(page)[i]
        == first_key_dropped(children)[i] by {
        assert(branch_child_laid_out(page, children, i, page.len()));
    }
    assert(branch_children(page) =~= first_key_dropped(children));
    assert(separators(branch_children(page)) =~= separators(children));
}

/// Where child `i` of a branch page stands: its metadata, three numbers and a checksum, right behind the
/// header and that of the children in front of it, and its key where the metadata says.
pub proof fn law_branch_child_is_where_its_metadata_says(page: Seq<u8>, i: int)
    requires
        branch_layout(page),
        0 <= i < u64_at(page, 8),
    ensures
        ({
            let at = 24 + 40 * i;
            let key_size = u64_at(page, at) as int;
            let key_offset = u64_at(page, at + 8) as int;
            &&& branch_children(page).len() == u64_at(page, 8)
            &&& branch_children(page)[i].key == page.subrange(key_offset, key_offset + key_size)
            &&& branch_children(page)[i].page_id == u64_at(page, at + 16) as u64
            &&& branch_children(page)[i].checksum == u128_at(page, at + 24) as u128
            &&& u64_at(page, 0) == 1
            &&& u64_at(page, 16) <= key_offset
            &&& key_offset + key_size <= page.len()
        }),
{
    assert(branch_region_valid(page, i));
}

/// A branch page has room for one more child if, and only if, what lies free between the metadata of its
/// children and their keys takes the metadata of one more, and its key.
pub proof fn law_branch_room_is_counted(page: Seq<u8>, key_len: nat)
    requires
        branch_layout(page),
    ensures
        branch_fits(page, key_len) <==> u64_at(page, 16) - (24 + 40 * u64_at(page, 8)) >= 40 + key_len,
{
}

/// Children that were laid out on a page are read from it again, in the same order, whatever it held
/// before, but for the key of the first one, which is dropped: the page parses as a branch, and the keys
/// take up its end.
pub proof fn law_branch_layout_round_trip(page: Seq<u8>, before: Seq<u8>, children: Seq<Child>)
    requires
        page.len() <= usize::MAX,
        branch_size(children) <= page.len(),
        branch_laid_out(page, before, children),
    ensures
        node_kind(page) == BRANCH_KIND,
        branch_parses(page),
        children.len() >= 1 ==> branch_layout(page),
        children.len() >= 1 && keys_sorted(separators(children)) ==> branch_wf(page),
        branch_children(page).len() == children.len(),
        forall|i: int|
            0 <= i < children.len() ==> {
                let child = #[trigger] branch_children(page)[i];
                &&& child.page_id == children[i].page_id
                &&& child.checksum == children[i].checksum
                &&& child.key == if i == 0 {
                    Seq::<u8>::empty()
                } else {
                    children[i].key
                }
            },
        branch_end(page) == page.len() - keys_size(children, children.len()),
{
    lemma_branch_laid_out(page, children);
}

/// Cutting the children in two leaves sorted separators on both sides.
pub proof fn lemma_separators_split(children: Seq<Child>, mid: int)
    requires
        keys_sorted(separators(children)),
        1 <= mid < children.len(),
    ensures
        keys_sorted(separators(children.take(mid))),
        keys_sorted(separators(children.skip(mid))),
        separators(children.take(mid)) == separators(children).take(mid - 1),
        separators(children.skip(mid)) == separators(children).skip(mid),
{
    let keys = separators(children);
    let left = separators(children.take(mid));
    let right = separators(children.skip(mid));
    assert(left =~= keys.take(mid - 1));
    assert(right =~= keys.skip(mid));
    assert forall|i: int, j: int| 0 <= i < j < left.len() implies key_lt(
        #[trigger] left[i],
        #[trigger] left[j],
    ) by {
        assert(key_lt(keys[i], keys[j]));
    }
    assert forall|i: int, j: int| 0 <= i < j < right.len() implies key_lt(
        #[trigger] right[i],
        #[trigger] right[j],
    ) by {
        assert(key_lt(keys[i + mid], keys[j + mid]));
    }
}

/// A page in which child `p` was replaced (`shift` is 0) or added (`shift` is 1), while all other
/// children kept their metadata and the keys that are there their bytes.
proof fn lemma_branch_change(before: Seq<u8>, after: Seq<u8>, p: int, shift: int, child: Child)
    requires
        branch_layout(before),
        after.len() == before.len(),
        node_kind(after) == BRANCH_KIND,
        shift == 0 || shift == 1,
        branch_count(after) == branch_count(before) + shift,
        0 <= p < branch_count(after),
        branch_slot(branch_count(after) as int) <= branch_end(after) <= branch_end(before),
        same_range(after, before, branch_end(before) as int, before.len() as int),
        forall|i: int| 0 <= i < p ==> #[trigger] branch_metadata_equal(after, i, before, i),
        forall|i: int|
            p < i < branch_count(after) ==> #[trigger] branch_metadata_equal(
                after,
                i,
                before,
                i - shift,
            ),
        branch_region_valid(after, p),
        branch_child(after, p) == child,
    ensures
        branch_layout(after),
        branch_children(after) == (if shift == 0 {
            branch_children(before).update(p, child)
        } else {
            branch_children(before).insert(p, child)
        }),
{
    assert forall|i: int| 0 <= i < branch_count(after) implies #[trigger] branch_region_valid(
        after,
        i,
    ) by {
        if i < p {
            assert(branch_metadata_equal(after, i, before, i));
            assert(branch_region_valid(before, i));
        } else if i > p {
            assert(branch_metadata_equal(after, i, before, i - shift));
            assert(branch_region_valid(before, i - shift));
        }
    }
    let expected = if shift == 0 {
        branch_children(before).update(p, child)
    } else {
        branch_children(before).insert(p, child)
    };
    assert forall|i: int| 0 <= i < branch_count(after) implies #[trigger] branch_children(after)[i]
        == expected[i] by {
        if i != p {
            let i0 = if i < p { i } else { i - shift };
            assert(branch_metadata_equal(after, i, before, i0));
            assert(branch_region_valid(before, i0));
            assert(branch_child(after, i).key =~= branch_child(before, i0).key);
        }
    }
    assert(branch_children(after) =~= expected);
}

/// Adding a child keeps the separators sorted.
pub proof fn lemma_add_child_sorted(
    children: Seq<Child>,
    key: Seq<u8>,
    page_id: u64,
    checksum: u128,
)
    requires
        children.len() >= 1,
        keys_sorted(separators(children)),
    ensures
        keys_sorted(separators(add_child(children, key, page_id, checksum))),
{
    let keys = separators(children);
    let p = rank(keys, key) as int;
    crate::kv::keys::lemma_rank_splits(keys, key);
    let after = separators(add_child(children, key, page_id, checksum));
    if p < keys.len() && keys[p] == key {
        assert(after =~= keys);
    } else {
        assert(after =~= keys.insert(p, key));
        assert forall|i: int, j: int| 0 <= i < j < after.len() implies key_lt(
            #[trigger] after[i],
            #[trigger] after[j],
        ) by {
            let i0 = if i < p { i } else { i - 1 };
            let j0 = if j < p { j } else { j - 1 };
            if i == p {
                assert(after[j] == keys[j0]);
                crate::kv::keys::lemma_key_lt_total(key, keys[j0]);
                if key == keys[j0] {
                    lemma_found_rank(keys, key, j0);
                }
            } else if j == p {
                assert(after[i] == keys[i0]);
            } else {
                assert(after[i] == keys[i0] && after[j] == keys[j0]);
            }
        }
    }
}

/// Changes a branch page in place.
pub struct BranchPageMutator {
    page: Vec<u8>,
}

impl BranchPageMutator {
    /// The bytes of the page.
    pub closed spec fn page(self) -> Seq<u8> {
        self.page@
    }

    pub fn from_page(page: Vec<u8>) -> (r: Self)
        ensures
            r.page() == page@,
    {
        BranchPageMutator { page }
    }

    /// Gives the page back.
    pub fn into_page(self) -> (r: Vec<u8>)
        ensures
            r@ == self.page(),
    {
        self.page
    }

    /// Whether a child with such a key can be added without rebuilding the page.
    pub fn fits(&self, key: &[u8]) -> (r: Result<bool>)
        requires
            self.page().len() >= 24 ==> branch_layout(self.page()),
        ensures
            match r {
                Ok(fits) => {
                    &&& self.page().len() >= 24
                    &&& fits == branch_fits(self.page(), key@.len())
                },
                Err(e) => self.page().len() < 24 && e.is_conversion(),
            },
    {
        if self.page.len() < BRANCH_HEADER_SIZE {
            return Err(Error::conversion());
        }
        Ok(branch_has_room(self.page.as_slice(), key.len()))
    }

    /// Adds a child under `key`, or gives the child that has the key another page.
    pub fn insert(&mut self, key: &[u8], child_page_id: u64, child_page_checksum: u128) -> (r:
        Result<()>)
        requires
            branch_parses(old(self).page()) ==> branch_wf(old(self).page()) && branch_fits(
                old(self).page(),
                key@.len(),
            ),
        ensures
            match r {
                Ok(()) => {
                    &&& branch_parses(old(self).page())
                    &&& final(self).page().len() == old(self).page().len()
                    &&& branch_wf(final(self).page())
                    &&& branch_children(final(self).page()) == add_child(
                        branch_children(old(self).page()),
                        key@,
                        child_page_id,
                        child_page_checksum,
                    )
                    &&& branch_end(final(self).page()) == if branch_count(final(self).page())
                        == branch_count(old(self).page()) {
                        branch_end(old(self).page()) as int
                    } else {
                        branch_end(old(self).page()) - key@.len()
                    }
                },
                Err(e) => {
                    &&& !branch_parses(old(self).page())
                    &&& e.is_conversion()
                    &&& final(self).page() == old(self).page()
                },
            },
    {
        let ghost children = branch_children(self.page@);
        let search_result = match BranchPage::from_page(self.page.as_slice()) {
            Ok(branch) => branch.search_entry_index(key),
            Err(e) => return Err(e),
        };
        proof {
            lemma_add_child_sorted(children, key@, child_page_id, child_page_checksum);
        }
        match search_result {
            Ok(entry_index) => self.set_child_at_index(
                entry_index,
                child_page_id,
                child_page_checksum,
            ),
            Err(insert_index) => {
                self.insert_new_entry(insert_index, key, child_page_id, child_page_checksum);
                Ok(())
            },
        }
    }

    /// The index and the page of the child under which `key` belongs.
    pub fn child_page_for_key(&self, key: &[u8]) -> (r: Result<(usize, u64)>)
        requires
            branch_parses(self.page()) ==> branch_wf(self.page()),
        ensures
            match r {
                Ok((index, page_id)) => {
                    let children = branch_children(self.page());
                    &&& branch_parses(self.page())
                    &&& index == child_index(children, key@)
                    &&& index < children.len()
                    &&& page_id == children[index as int].page_id
                },
                Err(e) => !branch_parses(self.page()) && e.is_conversion(),
            },
    {
        match BranchPage::from_page(self.page.as_slice()) {
            Ok(branch) => {
                let index = branch.child_index_for_key(key);
                Ok((index, branch.child_page_id_at_index(index)))
            },
            Err(e) => Err(e),
        }
    }

    /// Gives child `index` another page.
    pub fn set_child_at_index(
        &mut self,
        index: usize,
        child_page_id: u64,
        child_page_checksum: u128,
    ) -> (r: Result<()>)
        requires
            branch_parses(old(self).page()) ==> branch_layout(old(self).page()) && index
                < branch_count(old(self).page()),
        ensures
            match r {
                Ok(()) => {
                    &&& branch_parses(old(self).page())
                    &&& final(self).page().len() == old(self).page().len()
                    &&& branch_layout(final(self).page())
                    &&& branch_end(final(self).page()) == branch_end(old(self).page())
                    &&& branch_children(final(self).page()) == set_child(
                        branch_children(old(self).page()),
                        index as int,
                        child_page_id,
                        child_page_checksum,
                    )
                },
                Err(e) => {
                    &&& !branch_parses(old(self).page())
                    &&& e.is_conversion()
                    &&& final(self).page() == old(self).page()
                },
            },
    {
        let ghost before = self.page@;
        match BranchPage::from_page(self.page.as_slice()) {
            Ok(_) => {},
            Err(e) => return Err(e),
        }
        write_branch_child(&mut self.page, index, child_page_id, child_page_checksum);
        proof {
            let after = self.page@;
            lemma_branch_header_same(before, after);
            assert(branch_region_valid(before, index as int));
            assert(branch_child(after, index as int).key =~= branch_child(
                before,
                index as int,
            ).key);
            assert forall|i: int|
                0 <= i < branch_count(before) && i
                    != index implies #[trigger] branch_metadata_equal(after, i, before, i) by {
                lemma_branch_metadata_same(after, before, i);
            }
            assert forall|i: int|
                index < i < branch_count(before) implies #[trigger] branch_metadata_equal(
                after,
                i,
                before,
                i - 0,
            ) by {
                assert(branch_metadata_equal(after, i, before, i));
            }
            lemma_branch_change(
                before,
                after,
                index as int,
                0,
                branch_child(after, index as int),
            );
        }
        Ok(())
    }

    /// Adds a child in front of child `insert_index`.
    fn insert_new_entry(
        &mut self,
        insert_index: usize,
        key: &[u8],
        child_page_id: u64,
        child_page_checksum: u128,
    )
        requires
            branch_layout(old(self).page()),
            branch_fits(old(self).page(), key@.len()),
            insert_index <= branch_count(old(self).page()),
        ensures
            final(self).page().len() == old(self).page().len(),
            branch_layout(final(self).page()),
            branch_children(final(self).page()) == branch_children(old(self).page()).insert(
                insert_index as int,
                Child { key: key@, page_id: child_page_id, checksum: child_page_checksum },
            ),
            branch_end(final(self).page()) == branch_end(old(self).page()) - key@.len(),
    {
        let ghost before = self.page@;
        let old_num_entries = read_u64(self.page.as_slice(), 8) as usize;
        let key_offset = self.append_key(key);
        let new_entry = BranchEntryMetadata {
            key_size: key.len(),
            key_offset,
            child_page_id,
            child_page_checksum,
        };
        write_branch_header(&mut self.page, old_num_entries + 1, key_offset);
        let ghost written = self.page@;
        self.insert_metadata(insert_index, old_num_entries, new_entry);
        proof {
            let after = self.page@;
            let p = insert_index as int;
            lemma_branch_header_same(written, after);
            assert forall|i: int| 0 <= i < p implies #[trigger] branch_metadata_equal(
                after,
                i,
                before,
                i,
            ) by {
                lemma_branch_metadata_same(after, before, i);
            }
            assert forall|i: int|
                p < i < branch_count(after) implies #[trigger] branch_metadata_equal(
                after,
                i,
                before,
                i - 1,
            ) by {
                assert forall|j: int| branch_slot(i - 1) <= j < branch_slot(i) implies after[j + 40]
                    == #[trigger] before[j] by {
                    assert(written[j] == before[j]);
                }
                lemma_branch_metadata_shifted(before, after, i - 1);
            }
            assert(branch_child(after, p).key =~= key@);
            lemma_branch_change(
                before,
                after,
                p,
                1,
                Child { key: key@, page_id: child_page_id, checksum: child_page_checksum },
            );
        }
    }

    /// Writes a key right below the keys that are there.
    fn append_key(&mut self, key: &[u8]) -> (r: usize)
        requires
            branch_layout(old(self).page()),
            key@.len() <= branch_end(old(self).page()),
        ensures
            r == branch_end(old(self).page()) - key@.len(),
            final(self).page() == splice(old(self).page(), r as int, key@),
    {
        let key_offset = read_u64(self.page.as_slice(), 16) as usize - key.len();
        write_data_at_offset(&mut self.page, key, key_offset);
        key_offset
    }

    /// Makes room in the metadata in front of child `insert_index`, and writes `new_entry` there.
    fn insert_metadata(
        &mut self,
        insert_index: usize,
        old_num_entries: usize,
        new_entry: BranchEntryMetadata,
    )
        requires
            insert_index <= old_num_entries,
            branch_slot(old_num_entries + 1) <= old(self).page().len(),
        ensures
            final(self).page().len() == old(self).page().len(),
            new_entry.stands_at(final(self).page(), insert_index as int),
            same_range(final(self).page(), old(self).page(), 0, branch_slot(insert_index as int)),
            same_range(
                final(self).page(),
                old(self).page(),
                branch_slot(old_num_entries + 1),
                old(self).page().len() as int,
            ),
            forall|i: int|
                branch_slot(insert_index as int) <= i < branch_slot(old_num_entries as int)
                    ==> final(self).page()[i + 40] == #[trigger] old(self).page()[i],
    {
        let size = self.page.len();
        let from = BRANCH_HEADER_SIZE + BRANCH_ENTRY_SIZE * insert_index;
        let to = BRANCH_HEADER_SIZE + BRANCH_ENTRY_SIZE * old_num_entries;
        copy_within(&mut self.page, from, to, from + BRANCH_ENTRY_SIZE);
        write_branch_metadata(&mut self.page, insert_index, new_entry);
    }
}

/// Whether a child with a key of this size can be appended to a branch page.
pub fn branch_has_room(page: &[u8], key_len: usize) -> (r: bool)
    requires
        branch_layout(page@),
    ensures
        r == branch_fits(page@, key_len as nat),
{
    let num_entries = read_u64(page, 8) as usize;
    let end = read_u64(page, 16) as usize;
    if end < key_len {
        return false;
    }
    let key_offset = end - key_len;
    if key_offset < BRANCH_HEADER_SIZE + BRANCH_ENTRY_SIZE {
        return false;
    }
    num_entries <= (key_offset - BRANCH_HEADER_SIZE - BRANCH_ENTRY_SIZE) / BRANCH_ENTRY_SIZE
}

/// Whether the key of entry `i` lies in the page as it should.
fn region_is_valid(branch: &BranchPage<'_>, i: usize) -> (r: bool)
    requires
        branch.inv(),
        i < branch_count(branch.page()),
    ensures
        r == branch_region_valid(branch.page(), i as int),
{
    let page = branch.page;
    let size = page.len() as u64;
    let slot = BRANCH_HEADER_SIZE + BRANCH_ENTRY_SIZE * i;
    let end = read_u64(page, 16);
    let key_size = read_u64(page, slot);
    let key_offset = read_u64(page, slot + 8);
    if end > key_offset || key_offset > size {
        false
    } else {
        key_size <= size - key_offset
    }
}

/// Whether the branch page is in good order: it has a child, all keys lie in the page, and the
/// separators are sorted.
pub fn branch_is_well_formed(branch: &BranchPage<'_>) -> (r: bool)
    requires
        branch.inv(),
        node_kind(branch.page()) == BRANCH_KIND,
    ensures
        r == branch_wf(branch.page()),
{
    let page = branch.page;
    let size = page.len() as u64;
    let count = branch.num_entries;
    let end = read_u64(page, 16);
    if count == 0 || end > size || end < (BRANCH_HEADER_SIZE + BRANCH_ENTRY_SIZE * count) as u64 {
        return false;
    }
    let mut i: usize = 0;
    while i < count
        invariant
            i <= count,
            count == branch_count(page@),
            branch.inv(),
            branch.page() == page@,
            forall|j: int| 0 <= j < i ==> #[trigger] branch_region_valid(page@, j),
        decreases count - i,
    {
        if !region_is_valid(branch, i) {
            return false;
        }
        i += 1;
    }
    assert(branch_layout(page@));
    let mut i: usize = 2;
    while i < count
        invariant
            2 <= i,
            1 <= count,
            count == branch_count(page@),
            branch.inv(),
            branch.page() == page@,
            branch_layout(page@),
            i <= count || count == 1,
            keys_sorted(separators(branch_children(page@)).take(if i <= count {
                i - 1
            } else {
                0
            })),
        decreases count - i,
    {
        let ghost keys = separators(branch_children(page@));
        let before = branch.entry_key(i - 1);
        let key = branch.entry_key(i);
        match compare_keys(before, key) {
            KeyOrder::Less => {},
            _ => {
                assert(keys[i - 2] == before@ && keys[i - 1] == key@);
                return false;
            },
        }
        proof {
            lemma_sorted_extended(keys, i - 1);
        }
        i += 1;
    }
    proof {
        let keys = separators(branch_children(page@));
        assert(keys.take(count - 1) =~= keys);
    }
    true
}

} // verus!
