//! A transaction that changes the tree.

use crate::kv::btree::node::{is_node_error, node_parses, node_wf};
use crate::kv::btree::tree::{can_store, insert_effect, insert_stores, insert_written, Tree};
use crate::kv::btree::tree_model::Pages;
use crate::kv::btree::tree_path::{
    clean_list, copy_of, leads_step, lemma_all_clean, path_current, path_ids, path_read_from, TreePath,
};
use crate::kv::btree::tree_written::{has_page, page_bytes};
use crate::kv::bytes::to_vec;
use crate::kv::error::{Error, Result};
use crate::kv::pages::page::{Page, PageMut};
use crate::kv::pages::page_allocator::{
    hands_out, lemma_hands_out_nothing, lemma_hands_out_twice, lemma_takes_one, lemma_takes_shift,
    oldest_or_max, takes, PageAllocator,
};
use crate::kv::pages::page_io::PageRead;
use crate::kv::pages::page_manager::PageManager;
use crate::kv::pages::PageId;
use crate::kv::transactions::dirty_pages::{slot_contents, DirtyPageSlot, DirtyPageTracker};
use crate::kv::transactions::TransactionId;
use std::sync::Arc;
use vstd::prelude::*;

verus! {

/// A transaction that changes the tree. It works on copies of pages, which nobody else sees before
/// it is committed.
pub struct WriteTransaction {
    transaction: TransactionId,
    root_page: PageId,
    root_page_checksum: u128,
    dirty_pages: DirtyPageTracker,
    freed_pages: Vec<PageId>,
    failed: bool,
}

/// The pages of a file under the changes of a transaction.
pub open spec fn overlay(file: Pages, changes: Pages) -> Pages {
    file.union_prefer_right(changes)
}

/// Whether these are the pages of `contents`, each of them once.
pub open spec fn lists(pages: Seq<Page>, contents: Pages) -> bool {
    &&& forall|i: int|
        0 <= i < pages.len() ==> contents.contains_key((#[trigger] pages[i]).page_id())
            && contents[pages[i].page_id()] == pages[i].bytes()
    &&& forall|i: int, j: int|
        0 <= i < j < pages.len() ==> (#[trigger] pages[i]).page_id() != (
        #[trigger] pages[j]).page_id()
    &&& forall|p: PageId| #[trigger]
        contents.contains_key(p) ==> exists|i: int|
            0 <= i < pages.len() && (#[trigger] pages[i]).page_id() == p
}

/// A transaction that has ended: the pages that are to be written, and what is to be published
/// then.
pub struct PendingCommit {
    pages: Vec<Page>,
    root_page: PageId,
    root_page_checksum: u128,
    transaction: TransactionId,
    freed_pages: Vec<PageId>,
}

impl PendingCommit {
    /// The pages that are left to be written.
    pub closed spec fn pages(self) -> Seq<Page> {
        self.pages@
    }

    /// The root of the new tree.
    pub closed spec fn root(self) -> PageId {
        self.root_page
    }

    /// The checksum of the root page.
    pub closed spec fn root_checksum(self) -> u128 {
        self.root_page_checksum
    }

    /// The number of the transaction.
    pub closed spec fn id(self) -> TransactionId {
        self.transaction
    }

    /// The pages that are free once the transaction is published.
    pub closed spec fn freed(self) -> Seq<PageId> {
        self.freed_pages@
    }

    /// Hands out the next page that is to be written.
    pub fn next_page(&mut self) -> (r: Option<Page>)
        ensures
            match r {
                Some(page) => {
                    &&& old(self).pages().len() > 0
                    &&& page == old(self).pages().last()
                    &&& final(self).pages() == old(self).pages().drop_last()
                },
                None => old(self).pages().len() == 0 && final(self).pages() == old(self).pages(),
            },
            final(self).root() == old(self).root(),
            final(self).root_checksum() == old(self).root_checksum(),
            final(self).id() == old(self).id(),
            final(self).freed() == old(self).freed(),
    {
        self.pages.pop()
    }

    pub fn root_page_id(&self) -> (r: PageId)
        ensures
            r == self.root(),
    {
        self.root_page
    }

    pub fn root_page_checksum(&self) -> (r: u128)
        ensures
            r == self.root_checksum(),
    {
        self.root_page_checksum
    }

    pub fn transaction_id(&self) -> (r: TransactionId)
        ensures
            r == self.id(),
    {
        self.transaction
    }

    pub fn freed_pages(&self) -> (r: &Vec<PageId>)
        ensures
            r@ == self.freed(),
    {
        &self.freed_pages
    }
}

/// A file after these pages were written to it.
pub open spec fn written(file: Pages, pages: Seq<Page>) -> Pages
    decreases pages.len(),
{
    if pages.len() == 0 {
        file
    } else {
        written(file, pages.drop_last()).insert(pages.last().page_id(), pages.last().bytes())
    }
}

proof fn lemma_written(file: Pages, pages: Seq<Page>, p: PageId)
    requires
        forall|i: int, j: int|
            0 <= i < j < pages.len() ==> (#[trigger] pages[i]).page_id() != (
            #[trigger] pages[j]).page_id(),
    ensures
        (forall|i: int| 0 <= i < pages.len() ==> (#[trigger] pages[i]).page_id() != p) ==> {
            &&& written(file, pages).contains_key(p) == file.contains_key(p)
            &&& written(file, pages)[p] == file[p]
        },
        forall|i: int|
            0 <= i < pages.len() && (#[trigger] pages[i]).page_id() == p ==> written(
                file,
                pages,
            ).contains_key(p) && written(file, pages)[p] == pages[i].bytes(),
    decreases pages.len(),
{
    if pages.len() > 0 {
        let rest = pages.drop_last();
        lemma_written(file, rest, p);
        assert forall|i: int| 0 <= i < rest.len() implies #[trigger] pages[i] == rest[i] by {}
        assert forall|i: int|
            0 <= i < pages.len() && (#[trigger] pages[i]).page_id() == p implies written(
            file,
            pages,
        ).contains_key(p) && written(file, pages)[p] == pages[i].bytes() by {
            if i < rest.len() {
                assert(rest[i].page_id() == p);
                assert(pages[i].page_id() != pages[pages.len() - 1].page_id());
            }
        }
        if forall|i: int| 0 <= i < pages.len() ==> (#[trigger] pages[i]).page_id() != p {
            assert(pages[pages.len() - 1].page_id() != p);
            assert forall|i: int| 0 <= i < rest.len() implies (#[trigger] rest[i]).page_id()
                != p by {
                assert(pages[i].page_id() != p);
            }
        }
    }
}

/// Once all pages that an ended transaction hands out are written, the file holds what the transaction
/// has on each of its pages, and is otherwise as it was.
pub proof fn law_commit_writes_every_page(
    transaction: WriteTransaction,
    pending: PendingCommit,
    file: Pages,
    p: PageId,
)
    requires
        transaction.settled(),
        lists(pending.pages(), transaction.contents()),
    ensures
        ({
            let slots = transaction.slots();
            let after = written(file, pending.pages());
            &&& slots.contains_key(p) ==> after.contains_key(p) && after[p]
                == slots[p]->Available_0.bytes()
            &&& !slots.contains_key(p) ==> after.contains_key(p) == file.contains_key(p) && after[p]
                == file[p]
        }),
{
    let pages = pending.pages();
    lemma_written(file, pages, p);
    if transaction.slots().contains_key(p) {
        assert(transaction.slots()[p] is Available);
        assert(transaction.contents().contains_key(p));
        let i = choose|i: int| 0 <= i < pages.len() && (#[trigger] pages[i]).page_id() == p;
        assert(pages[i].bytes() == transaction.contents()[p]);
    } else {
        assert forall|i: int| 0 <= i < pages.len() implies (#[trigger] pages[i]).page_id() != p by {
            assert(transaction.contents().contains_key(pages[i].page_id()));
        }
    }
}

/// How a path to a leaf goes on.
pub enum PathStep {
    /// The leaf has been reached.
    Reached,
    /// The path is one page longer.
    Moved,
    /// So many bytes are to be read from there in the file.
    Load { page_id: PageId, offset: u64, len: usize },
}

/// Whether pages of this size, all of them different, can be copied.
pub open spec fn copyable(path: Seq<Page>, size: u64) -> bool {
    &&& forall|i: int| 0 <= i < path.len() ==> (#[trigger] path[i]).bytes().len() == size
    &&& forall|i: int, j: int|
        0 <= i < j < path.len() ==> (#[trigger] path[i]).page_id() != (#[trigger] path[j]).page_id()
}

/// Whether the nodes of a path were copied, from the top down: each that had no copy yet has one now,
/// on a page that was handed out for it, and is not used any more itself.
pub open spec fn path_copied(
    before: WriteTransaction,
    after: WriteTransaction,
    pages_before: PageAllocator,
    pages_after: PageAllocator,
    oldest: Option<TransactionId>,
    path: Seq<Page>,
) -> bool {
    let slots = before.slots();
    let clean = clean_list(path, 0, slots);
    let fresh = pages_before.first_pages(clean.len(), oldest);
    &&& hands_out(pages_before, pages_after, fresh, clean.len(), oldest)
    &&& after.freed() == before.freed() + clean
    &&& after.slots().dom() == slots.dom().union(fresh)
    &&& forall|p: PageId| #[trigger] slots.contains_key(p) ==> after.slots()[p] == slots[p]
    &&& forall|j: int|
        0 <= j < path.len() ==> {
            let copy = #[trigger] copy_of(path, 0, slots, pages_before, oldest, j);
            &&& has_page(after.slots(), copy, path[j].bytes().len())
            &&& page_bytes(after.slots(), copy) == path[j].bytes()
        }
}

/// An insertion that fails before anything was changed has cost a page for each node of the path: it was
/// copied to a page that was handed out for it, as the pages come from the top down, and is to be freed.
pub proof fn law_failure_costs_the_pages_of_the_path(
    before: WriteTransaction,
    after: WriteTransaction,
    pages_before: PageAllocator,
    pages_after: PageAllocator,
    oldest: Option<TransactionId>,
    path: Seq<Page>,
)
    requires
        path_copied(before, after, pages_before, pages_after, oldest, path),
        before.slots() == Map::<PageId, DirtyPageSlot>::empty(),
        before.freed() == Seq::<PageId>::empty(),
    ensures
        takes(pages_before, pages_after, path.len(), oldest),
        after.freed().len() == path.len(),
        forall|i: int|
            0 <= i < path.len() ==> {
                let copy = #[trigger] pages_before.nth_page(i, oldest);
                &&& after.freed()[i] == path[i].page_id()
                &&& after.slots().contains_key(copy)
                &&& after.slots()[copy] is Available
                &&& after.slots()[copy]->Available_0.bytes() == path[i].bytes()
            },
{
    let slots = before.slots();
    lemma_all_clean(path, 0, slots);
    assert forall|i: int| 0 <= i < path.len() implies {
        let copy = #[trigger] pages_before.nth_page(i, oldest);
        &&& after.freed()[i] == path[i].page_id()
        &&& after.slots().contains_key(copy)
        &&& after.slots()[copy] is Available
        &&& after.slots()[copy]->Available_0.bytes() == path[i].bytes()
    } by {
        lemma_all_clean(path, i, slots);
        assert(clean_list(path, 0, slots)[i] == path[0 + i].page_id());
        assert(copy_of(path, 0, slots, pages_before, oldest, i) == pages_before.nth_page(i, oldest));
    }
}

/// Whether what was read, if anything was, is the next page as the file holds it.
pub open spec fn read_agrees(next: Option<PageId>, loaded: Option<Vec<u8>>, file: Pages) -> bool {
    (next is Some && loaded is Some) ==> file.contains_key(next->0) && file[next->0] == loaded->0@
}

impl WriteTransaction {
    /// The number of the transaction.
    pub closed spec fn id(self) -> TransactionId {
        self.transaction
    }

    /// The root of the tree that the transaction sees.
    pub closed spec fn root(self) -> PageId {
        self.root_page
    }

    /// The checksum of the root page.
    pub closed spec fn root_checksum(self) -> u128 {
        self.root_page_checksum
    }

    /// The pages that the transaction has changed.
    pub closed spec fn slots(self) -> Map<PageId, DirtyPageSlot> {
        self.dirty_pages.slots()
    }

    /// The pages that were copied and are not used any more.
    pub closed spec fn freed(self) -> Seq<PageId> {
        self.freed_pages@
    }

    /// Whether an operation failed, which leaves nothing to be done with the transaction.
    pub closed spec fn is_failed(self) -> bool {
        self.failed
    }

    /// What the changed pages hold.
    pub open spec fn contents(self) -> Pages {
        slot_contents(self.slots())
    }

    /// Whether the changed pages have their size and stand each under its own id, and are nodes in good
    /// order unless an operation failed.
    pub open spec fn inv(self, size: u64) -> bool {
        forall|p: PageId| #[trigger]
            self.slots().contains_key(p) && self.slots()[p] is Available ==> {
                let page = self.slots()[p]->Available_0;
                &&& page.page_id() == p
                &&& page.bytes().len() == size
                &&& self.is_failed() || node_wf(page.bytes())
            }
    }

    /// Whether the transaction can take pages from `pages`: none of those that it has changed is
    /// free.
    pub open spec fn works_on(self, pages: PageManager) -> bool {
        &&& self.inv(pages.io().size())
        &&& pages.io().size() <= usize::MAX
        &&& pages.allocator().inv()
        &&& pages.allocator().retains(self.slots().dom(), u64::MAX)
    }

    /// A transaction on top of the commit with this number and root.
    pub fn new(committed: TransactionId, root_page: PageId, root_page_checksum: u128) -> (r: Self)
        requires
            committed < u64::MAX,
        ensures
            r.id() == committed + 1,
            r.root() == root_page,
            r.root_checksum() == root_page_checksum,
            r.slots() == Map::<PageId, DirtyPageSlot>::empty(),
            r.freed() == Seq::<PageId>::empty(),
            !r.is_failed(),
    {
        WriteTransaction {
            transaction: committed + 1,
            root_page,
            root_page_checksum,
            dirty_pages: DirtyPageTracker::new(),
            freed_pages: Vec::new(),
            failed: false,
        }
    }

    /// Whether the transaction has a copy of its own of a page.
    pub fn has_copy(&self, page_id: PageId) -> (r: bool)
        ensures
            r == self.slots().contains_key(page_id),
    {
        self.dirty_pages.contains(page_id)
    }

    /// Takes a new page to work on.
    pub fn allocate_page(&mut self, pages: &mut PageManager, oldest: Option<TransactionId>) -> (r:
        PageMut)
        requires
            old(self).works_on(*old(pages)),
            old(pages).allocator().next() < u64::MAX,
        ensures
            r.bytes() == Seq::new(old(pages).io().size() as nat, |i: int| 0u8),
            old(pages).allocator().reusable(oldest) ==> {
                &&& r.page_id() == old(pages).allocator().freed()[0].page_id
                &&& final(pages).allocator().freed() == old(pages).allocator().freed().drop_first()
                &&& final(pages).allocator().next() == old(pages).allocator().next()
                &&& final(pages).allocator().growth_is_due()
                    == old(pages).allocator().growth_is_due()
            },
            !old(pages).allocator().reusable(oldest) ==> {
                &&& r.page_id() == old(pages).allocator().next()
                &&& final(pages).allocator().freed() == old(pages).allocator().freed()
                &&& final(pages).allocator().next() == old(pages).allocator().next() + 1
                &&& final(pages).allocator().growth_is_due() == (final(pages).allocator().next()
                    > final(pages).allocator().reserved())
            },
            final(pages).allocator().reserved() == old(pages).allocator().reserved(),
            r.page_id() == old(pages).allocator().nth_page(0, oldest),
            !old(self).slots().contains_key(r.page_id()),
            final(self).slots() == old(self).slots().insert(
                r.page_id(),
                DirtyPageSlot::CheckedOut,
            ),
            final(self).same_but_pages(*old(self)),
            final(self).freed() == old(self).freed(),
            final(self).works_on(*final(pages)),
            final(pages).same_file(*old(pages)),
            hands_out(
                old(pages).allocator(),
                final(pages).allocator(),
                Set::empty().insert(r.page_id()),
                1,
                oldest,
            ),
    {
        let ghost dirty = self.slots().dom();
        let page = pages.allocate_page(oldest);
        proof {
            lemma_takes_one(old(pages).allocator(), pages.allocator(), page.page_id(), oldest);
            assert(!dirty.contains(page.page_id()));
            assert(self.slots().insert(page.page_id(), DirtyPageSlot::CheckedOut).dom()
                =~= dirty.insert(page.page_id()));
            assert forall|s: Set<PageId>, transaction: TransactionId|
                oldest_or_max(oldest) <= transaction && #[trigger] old(pages).allocator().retains(
                    s,
                    transaction,
                ) implies Set::empty().insert(page.page_id()).disjoint(s)
                && pages.allocator().retains(
                s.union(Set::empty().insert(page.page_id())),
                transaction,
            ) by {
                assert(s.union(Set::empty().insert(page.page_id())) =~= s.insert(page.page_id()));
            }
        }
        self.dirty_pages.add(page)
    }

    /// Takes a page of the tree to work on: the transaction's own copy of it, which is made from
    /// `source` where there is none yet.
    pub fn cow_page(
        &mut self,
        pages: &mut PageManager,
        oldest: Option<TransactionId>,
        source: &Page,
    ) -> (r: PageMut)
        requires
            old(self).works_on(*old(pages)),
            old(self).slots().contains_key(source.page_id()) ==> old(
                self,
            ).slots()[source.page_id()] is Available,
            !old(self).slots().contains_key(source.page_id()) ==> {
                &&& old(pages).allocator().next() < u64::MAX
                &&& source.bytes().len() == old(pages).io().size()
            },
        ensures
            old(self).slots().contains_key(source.page_id()) ==> {
                &&& r.page_id() == source.page_id()
                &&& old(self).slots()[source.page_id()] == DirtyPageSlot::Available(r)
                &&& final(self).freed() == old(self).freed()
                &&& *final(pages) == *old(pages)
            },
            !old(self).slots().contains_key(source.page_id()) ==> {
                &&& r.bytes() == source.bytes()
                &&& old(pages).allocator().reusable(oldest) ==> {
                    &&& r.page_id() == old(pages).allocator().freed()[0].page_id
                    &&& final(pages).allocator().freed() == old(pages).allocator().freed().drop_first()
                    &&& final(pages).allocator().next() == old(pages).allocator().next()
                    &&& final(pages).allocator().growth_is_due()
                        == old(pages).allocator().growth_is_due()
                }
                &&& !old(pages).allocator().reusable(oldest) ==> {
                    &&& r.page_id() == old(pages).allocator().next()
                    &&& final(pages).allocator().freed() == old(pages).allocator().freed()
                    &&& final(pages).allocator().next() == old(pages).allocator().next() + 1
                    &&& final(pages).allocator().growth_is_due() == (final(pages).allocator().next()
                        > final(pages).allocator().reserved())
                }
                &&& final(pages).allocator().reserved() == old(pages).allocator().reserved()
                &&& r.page_id() == old(pages).allocator().nth_page(0, oldest)
                &&& !old(self).slots().contains_key(r.page_id())
                &&& final(self).freed() == old(self).freed().push(source.page_id())
                &&& hands_out(
                    old(pages).allocator(),
                    final(pages).allocator(),
                    Set::empty().insert(r.page_id()),
                    1,
                    oldest,
                )
            },
            final(self).slots() == old(self).slots().insert(
                r.page_id(),
                DirtyPageSlot::CheckedOut,
            ),
            final(self).same_but_pages(*old(self)),
            final(self).works_on(*final(pages)),
            final(pages).same_file(*old(pages)),
    {
        let page_id = source.id();
        if self.dirty_pages.contains(page_id) {
            let page = self.dirty_pages.check_out(page_id);
            assert(self.slots().dom() =~= old(self).slots().dom());
            return page;
        }
        let mut page = self.allocate_page(pages, oldest);
        page.copy_page_from(source.data());
        self.freed_pages.push(page_id);
        page
    }

    /// Takes back a page that was worked on.
    pub fn return_page(&mut self, page: PageMut)
        requires
            old(self).slots().contains_key(page.page_id()),
            old(self).slots()[page.page_id()] is CheckedOut,
        ensures
            final(self).slots() == old(self).slots().insert(
                page.page_id(),
                DirtyPageSlot::Available(page),
            ),
            final(self).same_but_pages(*old(self)),
            final(self).freed() == old(self).freed(),
    {
        self.dirty_pages.return_page(page);
    }

    /// Whether nothing but the changed and freed pages differs.
    pub open spec fn same_but_pages(self, other: Self) -> bool {
        &&& self.id() == other.id()
        &&& self.root() == other.root()
        &&& self.root_checksum() == other.root_checksum()
        &&& self.is_failed() == other.is_failed()
    }

    pub fn get_root_page(&self) -> (r: PageId)
        ensures
            r == self.root(),
    {
        self.root_page
    }

    pub fn set_root_page(&mut self, page_id: PageId, checksum: u128)
        ensures
            final(self).root() == page_id,
            final(self).root_checksum() == checksum,
            final(self).id() == old(self).id(),
            final(self).is_failed() == old(self).is_failed(),
            final(self).slots() == old(self).slots(),
            final(self).freed() == old(self).freed(),
    {
        self.root_page = page_id;
        self.root_page_checksum = checksum;
    }

    /// Whether no page is being worked on.
    pub open spec fn settled(self) -> bool {
        forall|p: PageId| #[trigger]
            self.slots().contains_key(p) ==> self.slots()[p] is Available
    }

    /// Leaves nothing to be done with the transaction, after an operation failed.
    pub fn fail(&mut self)
        ensures
            final(self).is_failed(),
            final(self).id() == old(self).id(),
            final(self).root() == old(self).root(),
            final(self).root_checksum() == old(self).root_checksum(),
            final(self).slots() == old(self).slots(),
            final(self).freed() == old(self).freed(),
    {
        self.failed = true;
    }

    /// Fails on the way to a leaf: by then the nodes so far were copied.
    pub fn abandon(&mut self, pages: &mut PageManager, oldest: Option<TransactionId>, path: &TreePath)
        requires
            old(self).works_on(*old(pages)),
            old(self).settled(),
            copyable(path.pages(), old(pages).io().size()),
            path_current(path.pages(), 0, old(self).slots()),
            old(pages).allocator().retains(path_ids(path.pages(), 0), u64::MAX),
            old(pages).allocator().next() + path.pages().len() <= u64::MAX,
        ensures
            path_copied(
                *old(self),
                *final(self),
                old(pages).allocator(),
                final(pages).allocator(),
                oldest,
                path.pages(),
            ),
            final(self).is_failed(),
            final(self).id() == old(self).id(),
            final(self).root() == old(self).root(),
            final(self).root_checksum() == old(self).root_checksum(),
            final(self).settled(),
            final(self).works_on(*final(pages)),
            final(pages).same_file(*old(pages)),
            final(pages).allocator().next() <= old(pages).allocator().next() + path.pages().len(),
    {
        let ghost a = pages.allocator();
        self.failed = true;
        let ghost before = *self;
        let path = path.as_pages();
        proof {
            lemma_hands_out_nothing(a, oldest);
            assert(path@.take(0) =~= Seq::empty());
            assert(a.first_pages(0, oldest) =~= Set::empty());
            assert(self.slots().dom().union(Set::empty()) =~= self.slots().dom());
            assert(self.freed() + Seq::<PageId>::empty() =~= self.freed());
        }
        let mut i: usize = 0;
        while i < path.len()
            invariant
                i <= path@.len(),
                before.is_failed(),
                before.settled(),
                before.inv(pages.io().size()),
                copyable(path@, pages.io().size()),
                path_current(path@, 0, before.slots()),
                a.retains(path_ids(path@, 0), u64::MAX),
                a.next() + path@.len() <= u64::MAX,
                pages.allocator().next() <= a.next() + i,
                path_copied(before, *self, a, pages.allocator(), oldest, path@.take(i as int)),
                self.settled(),
                self.works_on(*pages),
                self.same_but_pages(before),
                pages.same_file(*old(pages)),
            decreases path@.len() - i,
        {
            let ghost above = *self;
            let ghost pages_above = *pages;
            let page = &path[i];
            let copy = self.cow_page(pages, oldest, page);
            self.return_page(copy);
            proof {
                assert(path@.take(i + 1) =~= path@.take(i as int).push(*page));
                assert(path_ids(path@, 0).contains(page.page_id()));
                lemma_copied_one_more(
                    before,
                    above,
                    *self,
                    a,
                    pages_above.allocator(),
                    pages.allocator(),
                    oldest,
                    path@.take(i as int),
                    *page,
                    copy,
                );
            }
            i += 1;
        }
        assert(path@.take(path@.len() as int) =~= path@);
    }

    /// Begins to store a pair: the path to the leaf that its key belongs to is to be found first.
    pub fn begin_insert(&self) -> (r: Result<TreePath>)
        ensures
            match r {
                Ok(path) => {
                    &&& !self.is_failed()
                    &&& path.pages() == Seq::<Page>::empty()
                    &&& path.next() == Some(self.root())
                    &&& path.starts_at(self.root())
                    &&& forall|key: Seq<u8>, size: nat| #[trigger] path.inv(key, size)
                },
                Err(e) => self.is_failed() && e is TransactionFailed,
            },
    {
        if self.failed {
            return Err(Error::TransactionFailed);
        }
        Ok(TreePath::new(self.root_page))
    }

    /// Goes one page further on the path to a leaf. A page that is neither the transaction's own
    /// nor at hand is asked for, and is to be passed in with the next call. At a page that is no node
    /// the transaction fails; by then that page and those above it were copied.
    pub fn advance(
        &mut self,
        pages: &mut PageManager,
        oldest: Option<TransactionId>,
        path: &mut TreePath,
        loaded: Option<Vec<u8>>,
        key: &[u8],
    ) -> (r: Result<PathStep>)
        requires
            !old(self).is_failed(),
            old(self).works_on(*old(pages)),
            old(self).settled(),
            old(path).inv(key@, old(pages).io().size() as nat),
            !old(path).loops(),
            path_current(old(path).pages(), 0, old(self).slots()),
            old(path).next() matches Some(next) ==> next * old(pages).io().size() <= u64::MAX,
            old(path).next() matches Some(next) ==> old(pages).allocator().retains(
                path_ids(old(path).pages(), 0).insert(next),
                u64::MAX,
            ),
            old(pages).allocator().next() + old(path).pages().len() < u64::MAX,
            old(path).next() matches Some(next) ==> old(self).slots().contains_key(next) || old(
                pages,
            ).io().offers_sound(next, loaded),
        ensures
            match r {
                Ok(PathStep::Reached) => {
                    &&& old(path).next() is None
                    &&& *final(path) == *old(path)
                },
                Ok(PathStep::Load { page_id, offset, len }) => {
                    &&& old(path).next() == Some(page_id)
                    &&& *final(path) == *old(path)
                    &&& !old(self).slots().contains_key(page_id)
                    &&& loaded is None
                    &&& offset == page_id * old(pages).io().size()
                    &&& len == old(pages).io().size()
                },
                Ok(PathStep::Moved) => {
                    let page = final(path).pages().last();
                    &&& old(path).next() == Some(page.page_id())
                    &&& final(path).pages() == old(path).pages().push(page)
                    &&& node_parses(page.bytes())
                    &&& old(self).finds(*old(pages), page.page_id(), loaded, page.bytes())
                },
                Err(e) => {
                    &&& *final(path) == *old(path)
                    &&& exists|page: Page| #[trigger]
                        old(self).finds(*old(pages), page.page_id(), loaded, page.bytes()) && {
                            &&& old(path).next() == Some(page.page_id())
                            &&& !node_parses(page.bytes())
                            &&& is_node_error(page.bytes(), e)
                            &&& path_copied(
                                *old(self),
                                *final(self),
                                old(pages).allocator(),
                                final(pages).allocator(),
                                oldest,
                                old(path).pages().push(page),
                            )
                        }
                },
            },
            r is Ok ==> {
                &&& final(self).slots() == old(self).slots()
                &&& final(self).freed() == old(self).freed()
                &&& final(pages).allocator() == old(pages).allocator()
            },
            final(self).is_failed() == r is Err,
            final(self).id() == old(self).id(),
            final(self).root() == old(self).root(),
            final(self).root_checksum() == old(self).root_checksum(),
            final(self).works_on(*final(pages)),
            final(self).settled(),
            final(path).inv(key@, old(pages).io().size() as nat),
            path_current(final(path).pages(), 0, old(self).slots()),
            forall|root: PageId| #[trigger]
                old(path).starts_at(root) ==> final(path).starts_at(root),
            final(pages).io().size() == old(pages).io().size(),
            final(pages).io().cache_capacity() == old(pages).io().cache_capacity(),
            forall|file: Pages| #[trigger]
                read_agrees(old(path).next(), loaded, file) && old(pages).io().reflects(file) ==> {
                    &&& final(pages).io().reflects(file)
                    &&& path_read_from(old(path).pages(), 0, old(self).slots(), file)
                        ==> path_read_from(final(path).pages(), 0, old(self).slots(), file)
                },
    {
        let ghost before = *pages;
        let next = match path.next_page_id() {
            None => return Ok(PathStep::Reached),
            Some(next) => next,
        };
        let page = match self.dirty_pages.peek(next) {
            Some(data) => Page::new(next, Arc::new(to_vec(data))),
            None => match loaded {
                Some(data) => pages.finish_read(next, data),
                None => match pages.read_page(next) {
                    PageRead::Cached(page) => page,
                    PageRead::Load { offset, len } => return Ok(
                        PathStep::Load { page_id: next, offset, len },
                    ),
                },
            },
        };
        assert(self.finds(before, next, loaded, page.bytes()));
        let ghost path_before = path.pages();
        match path.extend(Page::new(next, page.share_data()), key) {
            Err(e) => {
                let ghost pages_read = *pages;
                proof {
                    let size = pages.io().size();
                    assert forall|i: int| 0 <= i < path_before.len() implies (
                    #[trigger] path_before[i]).bytes().len() == size by {
                        assert(leads_step(path_before, i, next, key@, size as nat));
                    }
                    assert forall|p: PageId| #[trigger] path_ids(path_before, 0).contains(p) implies
                        path_ids(path_before, 0).insert(next).contains(p) by {}
                    assert(path_ids(path_before, 0).insert(next).contains(next));
                }
                self.abandon(pages, oldest, path);
                let ghost above = *self;
                let ghost pages_above = *pages;
                let copy = self.cow_page(pages, oldest, &page);
                self.return_page(copy);
                proof {
                    lemma_copied_one_more(
                        *old(self),
                        above,
                        *self,
                        before.allocator(),
                        pages_above.allocator(),
                        pages.allocator(),
                        oldest,
                        path.pages(),
                        page,
                        copy,
                    );
                    assert forall|file: Pages| #[trigger]
                        read_agrees(old(path).next(), loaded, file) && before.io().reflects(
                            file,
                        ) implies pages.io().reflects(file) by {
                        assert(pages_read.io().reflects(file));
                        assert(pages_above.io().reflects(file));
                    }
                }
                Err(e)
            },
            Ok(()) => {
                proof {
                    assert(path.pages().last().bytes() == page.bytes());
                    assert forall|i: int|
                        0 <= i < path.pages().len() && self.slots().contains_key(
                            (#[trigger] path.pages()[i]).page_id(),
                        ) implies {
                        &&& self.slots()[path.pages()[i].page_id()] is Available
                        &&& self.slots()[path.pages()[i].page_id()]->Available_0.bytes()
                            == path.pages()[i].bytes()
                    } by {
                        if i < path_before.len() {
                            assert(path.pages()[i] == path_before[i]);
                        }
                    }
                    assert forall|file: Pages| #[trigger]
                        read_agrees(old(path).next(), loaded, file) && before.io().reflects(
                            file,
                        ) && path_read_from(
                            path_before,
                            0,
                            self.slots(),
                            file,
                        ) implies path_read_from(path.pages(), 0, self.slots(), file) by {
                        assert forall|i: int|
                            0 <= i < path.pages().len() && !self.slots().contains_key(
                                (#[trigger] path.pages()[i]).page_id(),
                            ) implies file.contains_key(path.pages()[i].page_id())
                            && file[path.pages()[i].page_id()] == path.pages()[i].bytes() by {
                            if i < path_before.len() {
                                assert(path.pages()[i] == path_before[i]);
                            }
                        }
                    }
                }
                Ok(PathStep::Moved)
            },
        }
    }

    /// Whether `bytes` is what the transaction finds on a page: its own copy where it has one, else
    /// what was read from the file, else what the cache hands out.
    pub open spec fn finds(
        self,
        pages: PageManager,
        page_id: PageId,
        loaded: Option<Vec<u8>>,
        bytes: Seq<u8>,
    ) -> bool {
        if self.slots().contains_key(page_id) {
            self.contents()[page_id] == bytes
        } else {
            match loaded {
                Some(data) => data@ == bytes,
                None => pages.io().cached_pages().contains_key(page_id)
                    && pages.io().cached_pages()[page_id] == bytes,
            }
        }
    }

    /// Stores a pair, given the path to the leaf that its key belongs to.
    pub fn insert(
        &mut self,
        pages: &mut PageManager,
        oldest: Option<TransactionId>,
        path: &TreePath,
        key: &[u8],
        value: &[u8],
    ) -> (r: Result<()>)
        requires
            !old(self).is_failed() ==> {
                &&& old(self).works_on(*old(pages))
                &&& old(self).settled()
                &&& path.next() is None
                &&& path.inv(key@, old(pages).io().size() as nat)
                &&& path.starts_at(old(self).root())
                &&& path_current(path.pages(), 0, old(self).slots())
                &&& can_store(*old(pages), path.pages(), key@, value@)
            },
        ensures
            old(self).is_failed() ==> {
                &&& r matches Err(e) && e is TransactionFailed
                &&& *final(self) == *old(self)
                &&& *final(pages) == *old(pages)
            },
            !old(self).is_failed() ==> {
                &&& r is Ok
                &&& final(self).settled()
                &&& insert_effect(
                    *old(self),
                    *final(self),
                    *old(pages),
                    *final(pages),
                    oldest,
                    path.pages(),
                    key@,
                    value@,
                )
                &&& insert_written(
                    *old(self),
                    *final(self),
                    *old(pages),
                    oldest,
                    path.pages(),
                    key@,
                    value@,
                )
                &&& forall|file: Pages, depth: nat| #[trigger]
                    insert_stores(
                        file,
                        *old(self),
                        *final(self),
                        *old(pages),
                        path.pages(),
                        key@,
                        value@,
                        depth,
                    )
            },
    {
        if self.failed {
            return Err(Error::TransactionFailed);
        }
        let ghost before = *self;
        match Tree::insert(self, pages, oldest, path.as_pages(), key, value) {
            Ok(()) => {
                proof {
                    assert forall|p: PageId| #[trigger]
                        self.slots().contains_key(p) implies self.slots()[p] is Available by {
                        if before.slots().contains_key(p) {}
                    }
                }
                Ok(())
            },
            Err(e) => {
                self.failed = true;
                Err(e)
            },
        }
    }

    /// Ends the transaction: what it changed is to be written, and then published.
    pub fn commit(self) -> (r: Result<PendingCommit>)
        requires
            !self.is_failed() ==> self.settled() && forall|p: PageId| #[trigger]
                self.slots().contains_key(p) ==> self.slots()[p]->Available_0.page_id() == p,
        ensures
            match r {
                Ok(pending) => {
                    &&& !self.is_failed()
                    &&& pending.id() == self.id()
                    &&& pending.root() == self.root()
                    &&& pending.root_checksum() == self.root_checksum()
                    &&& pending.freed() == self.freed()
                    &&& lists(pending.pages(), self.contents())
                },
                Err(e) => self.is_failed() && e is TransactionFailed,
            },
    {
        if self.failed {
            return Err(Error::TransactionFailed);
        }
        let ghost contents = self.contents();
        let ghost slots = self.slots();
        let dirty = self.dirty_pages.into_pages();
        let mut dirty = dirty;
        let ghost all = dirty@;
        let mut pages: Vec<Page> = Vec::new();
        let count = dirty.len();
        while pages.len() < count
            invariant
                count == all.len(),
                pages@.len() + dirty@.len() == count,
                forall|i: int|
                    0 <= i < dirty@.len() ==> #[trigger] dirty@[i] == all[i],
                forall|i: int|
                    0 <= i < pages@.len() ==> (#[trigger] pages@[i]).page_id() == all[count - 1 - i].page_id()
                        && pages@[i].bytes() == all[count - 1 - i].bytes(),
            decreases count - pages@.len(),
        {
            match dirty.pop() {
                Some(page) => pages.push(page.freeze()),
                None => {
                    assert(false);
                },
            }
        }
        proof {
            assert forall|i: int| 0 <= i < pages@.len() implies contents.contains_key(
                (#[trigger] pages@[i]).page_id(),
            ) && contents[pages@[i].page_id()] == pages@[i].bytes() by {
                let page = all[count - 1 - i];
                assert(slots.contains_key(page.page_id()));
            }
            assert forall|i: int, j: int| 0 <= i < j < pages@.len() implies (
            #[trigger] pages@[i]).page_id() != (#[trigger] pages@[j]).page_id() by {
                let (a, b) = (all[count - 1 - i], all[count - 1 - j]);
            }
            assert forall|p: PageId| #[trigger] contents.contains_key(p) implies exists|i: int|
                0 <= i < pages@.len() && (#[trigger] pages@[i]).page_id() == p by {
                assert(slots.contains_key(p));
                let k = choose|k: int| 0 <= k < all.len() && (#[trigger] all[k]).page_id() == p;
                assert(pages@[count - 1 - k].page_id() == p);
            }
        }
        Ok(
            PendingCommit {
                pages,
                root_page: self.root_page,
                root_page_checksum: self.root_page_checksum,
                transaction: self.transaction,
                freed_pages: self.freed_pages,
            },
        )
    }
}

/// One node more is copied.
proof fn lemma_copied_one_more(
    before: WriteTransaction,
    above: WriteTransaction,
    after: WriteTransaction,
    a: PageAllocator,
    b: PageAllocator,
    c: PageAllocator,
    oldest: Option<TransactionId>,
    path: Seq<Page>,
    page: Page,
    copy: PageMut,
)
    requires
        path_copied(before, above, a, b, oldest, path),
        a.retains(Set::empty().insert(page.page_id()), u64::MAX),
        forall|i: int| 0 <= i < path.len() ==> (#[trigger] path[i]).page_id() != page.page_id(),
        before.slots().contains_key(page.page_id()) ==> {
            &&& before.slots()[page.page_id()] is Available
            &&& before.slots()[page.page_id()]->Available_0.bytes() == page.bytes()
        },
        above.slots().contains_key(page.page_id()) ==> {
            &&& copy.page_id() == page.page_id()
            &&& above.slots()[page.page_id()] == DirtyPageSlot::Available(copy)
            &&& after.freed() == above.freed()
            &&& c == b
        },
        !above.slots().contains_key(page.page_id()) ==> {
            &&& copy.bytes() == page.bytes()
            &&& copy.page_id() == b.nth_page(0, oldest)
            &&& !above.slots().contains_key(copy.page_id())
            &&& after.freed() == above.freed().push(page.page_id())
            &&& hands_out(b, c, Set::empty().insert(copy.page_id()), 1, oldest)
        },
        after.slots() == above.slots().insert(copy.page_id(), DirtyPageSlot::CheckedOut).insert(
            copy.page_id(),
            DirtyPageSlot::Available(copy),
        ),
    ensures
        path_copied(before, after, a, c, oldest, path.push(page)),
{
    let slots = before.slots();
    let longer = path.push(page);
    let clean = clean_list(path, 0, slots);
    let n = clean.len();
    let fresh = a.first_pages(n, oldest);
    let one = Set::<PageId>::empty().insert(page.page_id());
    assert(fresh.disjoint(one));
    assert(one.contains(page.page_id()));
    assert(above.slots().dom().contains(page.page_id()) == slots.dom().contains(page.page_id()));
    assert forall|j: int| 0 <= j <= path.len() implies #[trigger] clean_list(longer, j, slots)
        == clean_list(path, j, slots) + clean_list(seq![page], 0, slots) by {
        lemma_clean_list_longer(path, page, j, slots);
    }
    assert(clean_list(longer, 0, slots) == clean + clean_list(seq![page], 0, slots));
    reveal_with_fuel(clean_list, 2);
    lemma_takes_shift(a, b, n, oldest);
    if slots.contains_key(page.page_id()) {
        assert(clean_list(seq![page], 0, slots) =~= Seq::empty());
        assert(clean_list(longer, 0, slots) =~= clean);
        assert(after.slots() =~= above.slots());
    } else {
        let next = Set::<PageId>::empty().insert(copy.page_id());
        assert(clean_list(seq![page], 0, slots) =~= seq![page.page_id()]);
        assert(clean_list(longer, 0, slots) =~= clean.push(page.page_id()));
        lemma_hands_out_twice(a, b, c, fresh, next, n, 1, oldest);
        assert(after.slots().dom() =~= slots.dom().union(fresh.union(next)));
        assert(after.freed() =~= before.freed() + clean.push(page.page_id()));
        assert(a.nth_page(n as int, oldest) == copy.page_id());
    }
    assert forall|j: int| 0 <= j < longer.len() implies {
        let copy = #[trigger] copy_of(longer, 0, slots, a, oldest, j);
        &&& has_page(after.slots(), copy, longer[j].bytes().len())
        &&& page_bytes(after.slots(), copy) == longer[j].bytes()
    } by {
        if j < path.len() {
            assert(clean_list(longer, j, slots) == clean_list(path, j, slots) + clean_list(
                seq![page],
                0,
                slots,
            ));
            assert(copy_of(longer, 0, slots, a, oldest, j) == copy_of(path, 0, slots, a, oldest, j));
            assert(above.slots().contains_key(copy_of(path, 0, slots, a, oldest, j)));
        } else {
            assert(clean_list(longer, j, slots) == clean_list(path, j, slots) + clean_list(
                seq![page],
                0,
                slots,
            ));
        }
    }
}

/// A path that is one page longer has that page as its last one without a copy, or has it not.
proof fn lemma_clean_list_longer(
    path: Seq<Page>,
    page: Page,
    level: int,
    slots: Map<PageId, DirtyPageSlot>,
)
    requires
        0 <= level <= path.len(),
    ensures
        clean_list(path.push(page), level, slots) == clean_list(path, level, slots) + clean_list(
            seq![page],
            0,
            slots,
        ),
    decreases path.len() - level,
{
    reveal_with_fuel(clean_list, 2);
    if level < path.len() {
        lemma_clean_list_longer(path, page, level + 1, slots);
    }
    assert(clean_list(path.push(page), level, slots) =~= clean_list(path, level, slots)
        + clean_list(seq![page], 0, slots));
}

} // verus!
