//! The way from the root to the leaf that a key belongs to.

use crate::kv::btree::branch_node::{
    add_child, branch_children, branch_fits, branch_size, branch_wf, child_index, keys_size, Child,
};
use crate::kv::btree::leaf_node::{leaf_fits, leaf_pairs, leaf_size, leaf_wf};
use crate::kv::btree::node::{
    is_node_error, node_kind, node_parses, page_sound, NodePage, LEAF_KIND,
};
use crate::kv::btree::tree_model::Pages;
use crate::kv::entries::upsert;
use crate::kv::error::Result;
use crate::kv::pages::page::Page;
use crate::kv::pages::page_allocator::PageAllocator;
use crate::kv::pages::PageId;
use crate::kv::transactions::dirty_pages::DirtyPageSlot;
use crate::kv::transactions::TransactionId;
use vstd::prelude::*;

verus! {

/// Whether these pages are the way from a node to the leaf that `key` belongs to.
pub open spec fn path_ok(path: Seq<Page>, key: Seq<u8>, size: nat) -> bool {
    &&& forall|i: int| 0 <= i < path.len() ==> #[trigger] path_step_ok(path, i, key, size)
    &&& forall|i: int, j: int|
        0 <= i < j < path.len() ==> (#[trigger] path[i]).page_id() != (#[trigger] path[j]).page_id()
}

/// Whether page `i` of a path is a branch page that leads to the next one, or a leaf at its end.
pub open spec fn path_step_ok(path: Seq<Page>, i: int, key: Seq<u8>, size: nat) -> bool {
    let page = path[i].bytes();
    &&& page.len() == size
    &&& if i + 1 == path.len() {
        leaf_wf(page)
    } else {
        let children = branch_children(page);
        &&& branch_wf(page)
        &&& children[child_index(children, key)].page_id == path[i + 1].page_id()
    }
}

/// The pages of a path from `level` on.
pub open spec fn path_ids(path: Seq<Page>, level: int) -> Set<PageId> {
    Set::new(|p: PageId| exists|i: int| level <= i < path.len() && (#[trigger] path[i]).page_id() == p)
}

/// The pages of a path from `level` on that a transaction has no copies of.
pub open spec fn clean_ids(
    path: Seq<Page>,
    level: int,
    slots: Map<PageId, DirtyPageSlot>,
) -> Set<PageId> {
    Set::new(
        |p: PageId|
            !slots.contains_key(p) && exists|i: int|
                level <= i < path.len() && (#[trigger] path[i]).page_id() == p,
    )
}

/// The same, in order.
pub open spec fn clean_list(
    path: Seq<Page>,
    level: int,
    slots: Map<PageId, DirtyPageSlot>,
) -> Seq<PageId>
    decreases path.len() - level,
{
    if level < 0 || level >= path.len() {
        Seq::empty()
    } else {
        let rest = clean_list(path, level + 1, slots);
        if slots.contains_key(path[level].page_id()) {
            rest
        } else {
            seq![path[level].page_id()] + rest
        }
    }
}

/// A transaction that has no copies yet has none of any page of a path.
pub proof fn lemma_all_clean(path: Seq<Page>, level: int, slots: Map<PageId, DirtyPageSlot>)
    requires
        0 <= level <= path.len(),
        slots == Map::<PageId, DirtyPageSlot>::empty(),
    ensures
        clean_list(path, level, slots).len() == path.len() - level,
        forall|i: int|
            0 <= i < path.len() - level ==> #[trigger] clean_list(path, level, slots)[i]
                == path[level + i].page_id(),
    decreases path.len() - level,
{
    if level < path.len() {
        lemma_all_clean(path, level + 1, slots);
        let rest = clean_list(path, level + 1, slots);
        assert forall|i: int| 0 <= i < path.len() - level implies #[trigger] clean_list(
            path,
            level,
            slots,
        )[i] == path[level + i].page_id() by {
            if i > 0 {
                assert(rest[i - 1] == path[level + 1 + (i - 1)].page_id());
            }
        }
    }
}

/// The page that the node at `j` of a path is changed on, when the nodes from `level` on are copied
/// from the top down: its own if it is a copy already, else the one that is handed out when its turn
/// comes.
pub open spec fn copy_of(
    path: Seq<Page>,
    level: int,
    slots: Map<PageId, DirtyPageSlot>,
    allocator: PageAllocator,
    oldest: Option<TransactionId>,
    j: int,
) -> PageId {
    let page_id = path[j].page_id();
    if slots.contains_key(page_id) {
        page_id
    } else {
        allocator.nth_page(
            clean_list(path, level, slots).len() - clean_list(path, j, slots).len(),
            oldest,
        )
    }
}

/// Whether the pages of a path from `level` on are what a transaction sees, where it has copies.
pub open spec fn path_current(
    path: Seq<Page>,
    level: int,
    slots: Map<PageId, DirtyPageSlot>,
) -> bool {
    forall|i: int|
        level <= i < path.len() && slots.contains_key((#[trigger] path[i]).page_id()) ==> {
            &&& slots[path[i].page_id()] is Available
            &&& slots[path[i].page_id()]->Available_0.bytes() == path[i].bytes()
        }
}

/// Whether the pages of a path from `level` on are what the file holds, where a transaction has no
/// copies.
pub open spec fn path_read_from(
    path: Seq<Page>,
    level: int,
    slots: Map<PageId, DirtyPageSlot>,
    file: Pages,
) -> bool {
    forall|i: int|
        level <= i < path.len() && !slots.contains_key((#[trigger] path[i]).page_id())
            ==> file.contains_key(path[i].page_id()) && file[path[i].page_id()] == path[i].bytes()
}

/// Whether two runs of pairs can be laid out on two pages.
pub open spec fn leaf_halves_fit(page: Seq<u8>, key: Seq<u8>, value: Seq<u8>, size: nat) -> bool {
    let pairs = upsert(leaf_pairs(page), key, value);
    let mid = pairs.len() as int / 2;
    &&& pairs.len() >= 2
    &&& leaf_size(pairs.take(mid)) <= size
    &&& leaf_size(pairs.skip(mid)) <= size
}

/// Whether the children of a branch page, with one more at `separator`, can be laid out on two
/// pages.
pub open spec fn branch_halves_fit(page: Seq<u8>, separator: Seq<u8>, size: nat) -> bool {
    let children = add_child(branch_children(page), separator, 0, 0);
    let mid = children.len() as int / 2;
    &&& branch_size(children.take(mid)) <= size
    &&& branch_size(children.skip(mid)) <= size
}

/// The separator that the node at `level` passes up when it is split by storing the pair, if it is.
pub open spec fn passed_up(
    path: Seq<Page>,
    level: int,
    key: Seq<u8>,
    value: Seq<u8>,
) -> Option<Seq<u8>>
    decreases path.len() - level,
{
    if level < 0 || level >= path.len() {
        None
    } else {
        let page = path[level].bytes();
        if level + 1 == path.len() {
            if leaf_fits(page, key.len(), value.len()) {
                None
            } else {
                let pairs = upsert(leaf_pairs(page), key, value);
                Some(pairs[pairs.len() as int / 2].0)
            }
        } else {
            match passed_up(path, level + 1, key, value) {
                None => None,
                Some(separator) => if branch_fits(page, separator.len()) {
                    None
                } else {
                    let children = add_child(branch_children(page), separator, 0, 0);
                    Some(children[children.len() as int / 2].key)
                },
            }
        }
    }
}

/// Whether the pair can be stored: where a page has no room left, its contents fit on two.
pub open spec fn admissible(
    path: Seq<Page>,
    level: int,
    key: Seq<u8>,
    value: Seq<u8>,
    size: nat,
) -> bool
    decreases path.len() - level,
{
    if level < 0 || level >= path.len() {
        false
    } else {
        let page = path[level].bytes();
        if level + 1 == path.len() {
            leaf_fits(page, key.len(), value.len()) || leaf_halves_fit(page, key, value, size)
        } else {
            &&& admissible(path, level + 1, key, value, size)
            &&& passed_up(path, level + 1, key, value) matches Some(separator) ==> branch_fits(
                page,
                separator.len(),
            ) || branch_halves_fit(page, separator, size)
        }
    }
}

/// Where children stand, and how much room they take, depends on their keys alone.
pub proof fn lemma_branch_size_same_keys(a: Seq<Child>, b: Seq<Child>)
    requires
        a.len() == b.len(),
        forall|i: int| 0 <= i < a.len() ==> (#[trigger] a[i]).key == b[i].key,
    ensures
        branch_size(a) == branch_size(b),
{
    lemma_keys_size_same_keys(a, b, a.len());
}

proof fn lemma_keys_size_same_keys(a: Seq<Child>, b: Seq<Child>, n: nat)
    requires
        a.len() == b.len(),
        n <= a.len(),
        forall|i: int| 0 <= i < a.len() ==> (#[trigger] a[i]).key == b[i].key,
    ensures
        keys_size(a, n) == keys_size(b, n),
    decreases n,
{
    if n > 1 {
        lemma_keys_size_same_keys(a, b, (n - 1) as nat);
        assert(a[n - 1].key == b[n - 1].key);
    }
}

/// Whether these branch pages are the way from a node to the page `next`, as `key` goes.
pub open spec fn leads_to(path: Seq<Page>, next: PageId, key: Seq<u8>, size: nat) -> bool {
    &&& forall|i: int| 0 <= i < path.len() ==> #[trigger] leads_step(path, i, next, key, size)
    &&& forall|i: int, j: int|
        0 <= i < j < path.len() ==> (#[trigger] path[i]).page_id() != (#[trigger] path[j]).page_id()
}

/// Whether page `i` of a path that is not at its end yet is a branch page that leads to the next
/// one.
pub open spec fn leads_step(
    path: Seq<Page>,
    i: int,
    next: PageId,
    key: Seq<u8>,
    size: nat,
) -> bool {
    let page = path[i].bytes();
    let children = branch_children(page);
    &&& page.len() == size
    &&& branch_wf(page)
    &&& children[child_index(children, key)].page_id == if i + 1 < path.len() {
        path[i + 1].page_id()
    } else {
        next
    }
}

/// The way from the root towards the leaf that a key belongs to, as far as it is known.
pub struct TreePath {
    pages: Vec<Page>,
    next: Option<PageId>,
}

impl TreePath {
    /// The pages so far, from the root on.
    pub closed spec fn pages(self) -> Seq<Page> {
        self.pages@
    }

    /// The page that comes next, where the leaf has not been reached.
    pub closed spec fn next(self) -> Option<PageId> {
        self.next
    }

    /// Whether the pages lead, by way of `key`, to the next one or to the leaf.
    pub open spec fn inv(self, key: Seq<u8>, size: nat) -> bool {
        match self.next() {
            Some(next) => leads_to(self.pages(), next, key, size),
            None => self.pages().len() >= 1 && path_ok(self.pages(), key, size),
        }
    }

    /// Whether the path begins at `root`.
    pub open spec fn starts_at(self, root: PageId) -> bool {
        if self.pages().len() == 0 {
            self.next() == Some(root)
        } else {
            self.pages()[0].page_id() == root
        }
    }

    /// Whether the page that comes next was there before: the pages form a loop, and no tree.
    pub open spec fn loops(self) -> bool {
        self.next() matches Some(next) && path_ids(self.pages(), 0).contains(next)
    }

    /// A path that is to begin at `root`.
    pub fn new(root: PageId) -> (r: Self)
        ensures
            r.pages() == Seq::<Page>::empty(),
            r.next() == Some(root),
            r.starts_at(root),
            forall|key: Seq<u8>, size: nat| #[trigger] r.inv(key, size),
    {
        TreePath { pages: Vec::new(), next: Some(root) }
    }

    /// The page that comes next, where the leaf has not been reached.
    pub fn next_page_id(&self) -> (r: Option<PageId>)
        ensures
            r == self.next(),
    {
        self.next
    }

    /// The pages so far.
    pub fn as_pages(&self) -> (r: &Vec<Page>)
        ensures
            r@ == self.pages(),
    {
        &self.pages
    }

    /// Whether the page that comes next was there before.
    pub fn has_loop(&self) -> (r: bool)
        ensures
            r == self.loops(),
    {
        match self.next {
            None => false,
            Some(next) => {
                let mut i: usize = 0;
                while i < self.pages.len()
                    invariant
                        i <= self.pages@.len(),
                        self.next == Some(next),
                        forall|j: int| 0 <= j < i ==> (#[trigger] self.pages@[j]).page_id() != next,
                    decreases self.pages@.len() - i,
                {
                    if self.pages[i].id() == next {
                        assert(self.pages()[i as int].page_id() == next);
                        return true;
                    }
                    i += 1;
                }
                false
            },
        }
    }

    /// Goes on to the page that comes next: to a leaf, where the path ends, or to a branch page,
    /// which says where it goes on.
    pub fn extend(&mut self, page: Page, key: &[u8]) -> (r: Result<()>)
        requires
            old(self).next() == Some(page.page_id()),
            !old(self).loops(),
            old(self).inv(key@, page.bytes().len()),
            page_sound(page.bytes()),
        ensures
            match r {
                Ok(()) => {
                    &&& node_parses(page.bytes())
                    &&& final(self).pages() == old(self).pages().push(page)
                    &&& final(self).next() == if node_kind(page.bytes()) == LEAF_KIND {
                        None
                    } else {
                        let children = branch_children(page.bytes());
                        Some(children[child_index(children, key@)].page_id)
                    }
                    &&& final(self).inv(key@, page.bytes().len())
                },
                Err(e) => {
                    &&& !node_parses(page.bytes())
                    &&& is_node_error(page.bytes(), e)
                    &&& *final(self) == *old(self)
                },
            },
            forall|root: PageId| #[trigger]
                old(self).starts_at(root) ==> final(self).starts_at(root),
    {
        let ghost before = self.pages();
        let ghost size = page.bytes().len();
        let next = match NodePage::from_page(page.data()) {
            Err(e) => return Err(e),
            Ok(NodePage::Leaf(_)) => None,
            Ok(NodePage::Branch(branch)) => Some(branch.child_page_id_for_key(key)),
        };
        self.pages.push(page);
        self.next = next;
        proof {
            let after = self.pages();
            let id = page.page_id();
            assert forall|i: int, j: int| 0 <= i < j < after.len() implies (
            #[trigger] after[i]).page_id() != (#[trigger] after[j]).page_id() by {
                if j == before.len() {
                    assert(before[i].page_id() == after[i].page_id());
                    assert(!path_ids(before, 0).contains(id));
                }
            }
            match next {
                None => {
                    assert forall|i: int| 0 <= i < after.len() implies #[trigger] path_step_ok(
                        after,
                        i,
                        key@,
                        size,
                    ) by {
                        if i < before.len() {
                            assert(leads_step(before, i, id, key@, size));
                        }
                    }
                },
                Some(n) => {
                    assert forall|i: int| 0 <= i < after.len() implies #[trigger] leads_step(
                        after,
                        i,
                        n,
                        key@,
                        size,
                    ) by {
                        if i < before.len() {
                            assert(leads_step(before, i, id, key@, size));
                        }
                    }
                },
            }
        }
        Ok(())
    }
}

} // verus!
