//! A transaction that reads a committed state.

use crate::kv::btree::branch_node::{branch_children, child_index};
use crate::kv::btree::leaf_node::leaf_pairs;
use crate::kv::btree::node::{is_node_error, node_kind, node_parses, BRANCH_KIND, LEAF_KIND};
use crate::kv::btree::tree::Tree;
use crate::kv::btree::tree_model::Pages;
use crate::kv::btree::tree_search::{law_search_step, search_at, GetStep};
use crate::kv::entries::pairs_get;
use crate::kv::error::Result;
use crate::kv::pages::page_io::PageRead;
use crate::kv::pages::page_manager::PageManager;
use crate::kv::pages::PageId;
use crate::kv::transactions::write_transaction::read_agrees;
use crate::kv::transactions::TransactionId;
use vstd::prelude::*;

verus! {

/// A transaction that reads the state that one transaction committed, whatever is committed after
/// it.
pub struct ReadTransaction {
    root_page_id: PageId,
    transaction: TransactionId,
}

/// A search for a key, as far as it got.
pub struct Lookup {
    next: PageId,
}

/// How a search goes on.
pub enum ReadStep {
    /// It has ended: this is the value under the key, if there is one.
    Found(Option<Vec<u8>>),
    /// It is one page further.
    Moved,
    /// So many bytes are to be read from there in the file.
    Load { page_id: PageId, offset: u64, len: usize },
}

impl Lookup {
    /// The page that comes next.
    pub closed spec fn next(self) -> PageId {
        self.next
    }

    /// The page that comes next.
    pub fn next_page_id(&self) -> (r: PageId)
        ensures
            r == self.next(),
    {
        self.next
    }
}

impl ReadTransaction {
    /// The root of the tree that is read.
    pub closed spec fn root(self) -> PageId {
        self.root_page_id
    }

    /// The transaction that committed it.
    pub closed spec fn id(self) -> TransactionId {
        self.transaction
    }

    pub fn new(root_page: PageId, transaction: TransactionId) -> (r: Self)
        ensures
            r.root() == root_page,
            r.id() == transaction,
    {
        ReadTransaction { root_page_id: root_page, transaction }
    }

    /// Begins a search.
    pub fn begin(&self) -> (r: Lookup)
        ensures
            r.next() == self.root(),
    {
        Lookup { next: self.root_page_id }
    }

    pub fn get_root_page_id(&self) -> (r: PageId)
        ensures
            r == self.root(),
    {
        self.root_page_id
    }

    pub fn transaction_id(&self) -> (r: TransactionId)
        ensures
            r == self.id(),
    {
        self.transaction
    }

    /// Goes one page further in the search for the value under a key. A page that is not at hand is
    /// asked for, and is to be passed in with the next call.
    pub fn read(
        &self,
        pages: &mut PageManager,
        lookup: &mut Lookup,
        loaded: Option<Vec<u8>>,
        key: &[u8],
    ) -> (r: Result<ReadStep>)
        requires
            old(pages).io().size() <= usize::MAX,
            old(lookup).next() * old(pages).io().size() <= u64::MAX,
            old(pages).io().offers_sound(old(lookup).next(), loaded),
        ensures
            match r {
                Ok(ReadStep::Load { page_id, offset, len }) => {
                    &&& loaded is None
                    &&& page_id == old(lookup).next()
                    &&& offset == page_id * old(pages).io().size()
                    &&& len == old(pages).io().size()
                    &&& *final(lookup) == *old(lookup)
                },
                Ok(ReadStep::Found(value)) => {
                    &&& *final(lookup) == *old(lookup)
                    &&& exists|bytes: Seq<u8>| #[trigger]
                        page_found(*old(pages), old(lookup).next(), loaded, bytes)
                            && leaf_answers(bytes, key@, value)
                },
                Ok(ReadStep::Moved) => exists|bytes: Seq<u8>| #[trigger]
                    page_found(*old(pages), old(lookup).next(), loaded, bytes)
                        && branch_leads(bytes, key@, final(lookup).next()),
                Err(e) => {
                    &&& *final(lookup) == *old(lookup)
                    &&& exists|bytes: Seq<u8>| #[trigger]
                        page_found(*old(pages), old(lookup).next(), loaded, bytes)
                            && !node_parses(bytes) && is_node_error(bytes, e)
                },
            },
            final(pages).allocator() == old(pages).allocator(),
            final(pages).io().size() == old(pages).io().size(),
            final(pages).io().cache_capacity() == old(pages).io().cache_capacity(),
            forall|file: Pages| #[trigger]
                read_agrees(Some(old(lookup).next()), loaded, file) && old(pages).io().reflects(
                    file,
                ) ==> final(pages).io().reflects(file),
            forall|file: Pages, depth: nat, answer: Option<Seq<u8>>|
                read_agrees(Some(old(lookup).next()), loaded, file) && old(pages).io().reflects(
                    file,
                ) && #[trigger] search_at(
                    file,
                    old(lookup).next(),
                    depth,
                    key@,
                    old(pages).io().size() as nat,
                    answer,
                ) ==> match r {
                    Ok(ReadStep::Found(value)) => depth == 0 && answer == match value {
                        Some(value) => Some(value@),
                        None => None,
                    },
                    Ok(ReadStep::Moved) => depth > 0 && search_at(
                        file,
                        final(lookup).next(),
                        (depth - 1) as nat,
                        key@,
                        old(pages).io().size() as nat,
                        answer,
                    ),
                    Ok(ReadStep::Load { .. }) => true,
                    Err(_) => false,
                },
    {
        let ghost before = *pages;
        let next = lookup.next;
        let page = match loaded {
            Some(data) => pages.finish_read(next, data),
            None => match pages.read_page(next) {
                PageRead::Cached(page) => page,
                PageRead::Load { offset, len } => return Ok(
                    ReadStep::Load { page_id: next, offset, len },
                ),
            },
        };
        assert(page_found(before, next, loaded, page.bytes()));
        proof {
            assert forall|file: Pages, depth: nat, answer: Option<Seq<u8>>|
                read_agrees(Some(next), loaded, file) && before.io().reflects(file)
                    && #[trigger] search_at(
                    file,
                    next,
                    depth,
                    key@,
                    before.io().size() as nat,
                    answer,
                ) implies file[next] == page.bytes() by {
                law_search_step(file, next, depth, key@, before.io().size() as nat, answer);
            }
        }
        let step = match Tree::get_step(page.data(), key) {
            Err(e) => Err(e),
            Ok(GetStep::Value(value)) => Ok(ReadStep::Found(value)),
            Ok(GetStep::Child(child)) => {
                lookup.next = child;
                Ok(ReadStep::Moved)
            },
        };
        proof {
            assert forall|file: Pages, depth: nat, answer: Option<Seq<u8>>|
                read_agrees(Some(next), loaded, file) && before.io().reflects(file)
                    && #[trigger] search_at(
                    file,
                    next,
                    depth,
                    key@,
                    before.io().size() as nat,
                    answer,
                ) implies match step {
                Ok(ReadStep::Found(value)) => depth == 0 && answer == match value {
                    Some(value) => Some(value@),
                    None => None,
                },
                Ok(ReadStep::Moved) => depth > 0 && search_at(
                    file,
                    lookup.next(),
                    (depth - 1) as nat,
                    key@,
                    before.io().size() as nat,
                    answer,
                ),
                Ok(ReadStep::Load { .. }) => true,
                Err(_) => false,
            } by {
                law_search_step(file, next, depth, key@, before.io().size() as nat, answer);
            }
        }
        step
    }
}

/// Whether a page is a leaf that holds this value under a key.
pub open spec fn leaf_answers(page: Seq<u8>, key: Seq<u8>, value: Option<Vec<u8>>) -> bool {
    &&& node_parses(page)
    &&& node_kind(page) == LEAF_KIND
    &&& pairs_get(leaf_pairs(page), key) == match value {
        Some(value) => Some(value@),
        None => None,
    }
}

/// Whether a page is a branch page that leads to this child for a key.
pub open spec fn branch_leads(page: Seq<u8>, key: Seq<u8>, child: PageId) -> bool {
    let children = branch_children(page);
    &&& node_parses(page)
    &&& node_kind(page) == BRANCH_KIND
    &&& child == children[child_index(children, key)].page_id
}

/// Whether `bytes` is what is found on a page: what was read from the file, else what the cache hands
/// out.
pub open spec fn page_found(
    pages: PageManager,
    page_id: PageId,
    loaded: Option<Vec<u8>>,
    bytes: Seq<u8>,
) -> bool {
    match loaded {
        Some(data) => data@ == bytes,
        None => pages.io().cached_pages().contains_key(page_id)
            && pages.io().cached_pages()[page_id] == bytes,
    }
}

/// A search in a tree in good order comes to sound pages only, as long as the cache shows what the file
/// holds.
pub proof fn law_search_finds_sound_pages(
    pages: PageManager,
    loaded: Option<Vec<u8>>,
    file: Pages,
    page_id: PageId,
    depth: nat,
    key: Seq<u8>,
    answer: Option<Seq<u8>>,
)
    requires
        pages.io().reflects(file),
        read_agrees(Some(page_id), loaded, file),
        search_at(file, page_id, depth, key, pages.io().size() as nat, answer),
    ensures
        pages.io().offers_sound(page_id, loaded),
{
    law_search_step(file, page_id, depth, key, pages.io().size() as nat, answer);
}

} // verus!
