//! The pages that a write transaction has changed.

use crate::kv::btree::tree_model::Pages;
use crate::kv::pages::page::PageMut;
use crate::kv::pages::PageId;
use std::collections::HashMap;
use vstd::prelude::*;
use vstd::std_specs::iter::IteratorSpec;

verus! {

broadcast use vstd::std_specs::hash::group_hash_axioms;

/// Where a changed page is.
pub enum DirtyPageSlot {
    /// In the transaction's hands.
    Available(PageMut),
    /// Being worked on.
    CheckedOut,
}

/// The pages that a transaction has changed. A page is worked on by one caller at a time.
pub struct DirtyPageTracker {
    pages: HashMap<PageId, DirtyPageSlot>,
}

/// What the available pages hold.
pub open spec fn slot_contents(slots: Map<PageId, DirtyPageSlot>) -> Pages {
    Map::new(
        |p: PageId| slots.contains_key(p) && slots[p] is Available,
        |p: PageId| slots[p]->Available_0.bytes(),
    )
}

impl DirtyPageTracker {
    /// The changed pages.
    pub closed spec fn slots(self) -> Map<PageId, DirtyPageSlot> {
        self.pages@
    }

    /// Whether every page stands under its own id.
    pub open spec fn inv(self) -> bool {
        forall|p: PageId| #[trigger]
            self.slots().contains_key(p) && self.slots()[p] is Available
                ==> self.slots()[p]->Available_0.page_id() == p
    }

    pub fn new() -> (r: Self)
        ensures
            r.slots() == Map::<PageId, DirtyPageSlot>::empty(),
            r.inv(),
    {
        DirtyPageTracker { pages: HashMap::new() }
    }

    pub fn contains(&self, page_id: PageId) -> (r: bool)
        ensures
            r == self.slots().contains_key(page_id),
    {
        self.pages.contains_key(&page_id)
    }

    /// Takes up a page as changed, and leaves it to the caller to work on.
    pub fn add(&mut self, page: PageMut) -> (r: PageMut)
        requires
            !old(self).slots().contains_key(page.page_id()),
        ensures
            r == page,
            final(self).slots() == old(self).slots().insert(
                page.page_id(),
                DirtyPageSlot::CheckedOut,
            ),
            old(self).inv() ==> final(self).inv(),
    {
        self.pages.insert(page.id(), DirtyPageSlot::CheckedOut);
        page
    }

    /// Leaves a page to the caller to work on.
    pub fn check_out(&mut self, page_id: PageId) -> (r: PageMut)
        requires
            old(self).inv(),
            old(self).slots().contains_key(page_id),
            old(self).slots()[page_id] is Available,
        ensures
            old(self).slots()[page_id] == DirtyPageSlot::Available(r),
            r.page_id() == page_id,
            final(self).slots() == old(self).slots().insert(page_id, DirtyPageSlot::CheckedOut),
            final(self).inv(),
    {
        let slot = self.pages.insert(page_id, DirtyPageSlot::CheckedOut);
        match slot {
            Some(DirtyPageSlot::Available(page)) => page,
            _ => {
                assert(false);
                vstd::pervasive::unreached()
            },
        }
    }

    /// Takes back a page that was left to the caller.
    pub fn return_page(&mut self, page: PageMut)
        requires
            old(self).slots().contains_key(page.page_id()),
            old(self).slots()[page.page_id()] is CheckedOut,
        ensures
            final(self).slots() == old(self).slots().insert(
                page.page_id(),
                DirtyPageSlot::Available(page),
            ),
            old(self).inv() ==> final(self).inv(),
    {
        self.pages.insert(page.id(), DirtyPageSlot::Available(page));
    }

    /// The contents of a page.
    pub fn peek(&self, page_id: PageId) -> (r: Option<&[u8]>)
        ensures
            match r {
                Some(data) => slot_contents(self.slots()).contains_key(page_id) && slot_contents(
                    self.slots(),
                )[page_id] == data@,
                None => !slot_contents(self.slots()).contains_key(page_id),
            },
    {
        match self.pages.get(&page_id) {
            Some(DirtyPageSlot::Available(page)) => Some(page.data()),
            _ => None,
        }
    }

    /// All changed pages, in no particular order.
    pub fn into_pages(self) -> (r: Vec<PageMut>)
        requires
            self.inv(),
            forall|p: PageId| #[trigger]
                self.slots().contains_key(p) ==> self.slots()[p] is Available,
        ensures
            forall|i: int|
                0 <= i < r@.len() ==> {
                    let page = #[trigger] r@[i];
                    &&& self.slots().contains_key(page.page_id())
                    &&& self.slots()[page.page_id()] == DirtyPageSlot::Available(page)
                },
            forall|i: int, j: int|
                0 <= i < j < r@.len() ==> (#[trigger] r@[i]).page_id() != (
                #[trigger] r@[j]).page_id(),
            forall|p: PageId| #[trigger]
                self.slots().contains_key(p) ==> exists|i: int|
                    0 <= i < r@.len() && (#[trigger] r@[i]).page_id() == p,
    {
        let mut ids: Vec<PageId> = Vec::new();
        let ghost slots = self.slots();
        for id in iter: self.pages.keys()
            invariant
                slots == self.pages@,
                iter.seq() == self.pages.keys().remaining(),
                ids@.len() == iter.index(),
                forall|i: int| 0 <= i < iter.index() ==> ids@[i] == *iter.seq()[i],
        {
            ids.push(*id);
        }
        let ghost keys = self.pages.keys().remaining();
        proof {
            assert(ids@ =~= keys.unref());
            assert forall|p: PageId| slots.contains_key(p) == ids@.contains(p) by {
                assert(keys.unref().to_set().contains(p) == slots.dom().contains(p));
            }
        }
        let mut pages = self.pages;
        let mut out: Vec<PageMut> = Vec::new();
        let mut i: usize = 0;
        while i < ids.len()
            invariant
                i <= ids@.len(),
                ids@.no_duplicates(),
                out@.len() == i,
                self.inv(),
                slots == self.slots(),
                forall|p: PageId| slots.contains_key(p) == ids@.contains(p),
                forall|p: PageId| #[trigger] slots.contains_key(p) ==> slots[p] is Available,
                forall|j: int|
                    i <= j < ids@.len() ==> pages@.contains_key(#[trigger] ids@[j]) && pages@[ids@[j]]
                        == slots[ids@[j]],
                forall|j: int|
                    0 <= j < i ==> (#[trigger] out@[j]).page_id() == ids@[j]
                        && slots.contains_key(ids@[j]) && slots[ids@[j]]
                        == DirtyPageSlot::Available(out@[j]),
            decreases ids@.len() - i,
        {
            let id = ids[i];
            assert(ids@.contains(id));
            match pages.remove(&id) {
                Some(DirtyPageSlot::Available(page)) => out.push(page),
                _ => {
                    assert(false);
                },
            }
            i += 1;
        }
        proof {
            assert forall|p: PageId| #[trigger] slots.contains_key(p) implies exists|k: int|
                0 <= k < out@.len() && (#[trigger] out@[k]).page_id() == p by {
                let k = ids@.index_of(p);
                assert(ids@.contains(p));
                assert(out@[k].page_id() == p);
            }
        }
        out
    }
}

} // verus!
