//! Where pages stand in the file, and which of them are at hand.

use crate::kv::btree::node::page_sound;
use crate::kv::error::{Error, Result};
use crate::kv::pages::page::Page;
use crate::kv::pages::page_cache::PageCache;
use crate::kv::pages::PageId;
use crate::kv::text::{decimal, push_decimal};
use std::sync::Arc;
use vstd::prelude::*;

verus! {

/// What it takes to read a page.
pub enum PageRead {
    /// The page is at hand.
    Cached(Page),
    /// So many bytes are to be read from there in the file.
    Load { offset: u64, len: usize },
}

/// The pages of a file.
pub struct PageIO {
    page_cache: PageCache,
    page_size: u64,
}

/// The message for a page that does not have the size of a page.
pub open spec fn wrong_size_text(page_id: PageId, size: nat, expected: u64) -> Seq<char> {
    "page "@ + decimal(page_id as nat) + " has size "@ + decimal(size) + ", expected "@ + decimal(
        expected as nat,
    )
}

impl PageIO {
    /// The size of a page.
    pub closed spec fn size(self) -> u64 {
        self.page_size
    }

    /// How many pages the cache was made for.
    pub closed spec fn cache_capacity(self) -> u64 {
        self.page_cache.capacity()
    }

    /// The pages that the cache may hand out.
    pub closed spec fn cached_pages(self) -> Map<PageId, Seq<u8>> {
        self.page_cache.contents()
    }

    /// Whether whatever the cache may hand out is what the file holds.
    pub open spec fn reflects(self, file: Map<PageId, Seq<u8>>) -> bool {
        forall|p: PageId| #[trigger]
            self.cached_pages().contains_key(p) ==> file.contains_key(p) && file[p]
                == self.cached_pages()[p]
    }

    /// Whether the page that a reader gets has the size of a page and is sound: the one that was read
    /// from the file, else what the cache may hand out.
    pub open spec fn offers_sound(self, page_id: PageId, loaded: Option<Vec<u8>>) -> bool {
        match loaded {
            Some(data) => data@.len() == self.size() && page_sound(data@),
            None => self.cached_pages().contains_key(page_id) ==> {
                &&& self.cached_pages()[page_id].len() == self.size()
                &&& page_sound(self.cached_pages()[page_id])
            },
        }
    }

    pub fn new(page_size: u64, cache_capacity: usize) -> (r: Self)
        ensures
            r.size() == page_size,
            r.cache_capacity() == cache_capacity,
            r.cached_pages() == Map::<PageId, Seq<u8>>::empty(),
            forall|file: Map<PageId, Seq<u8>>| #[trigger] r.reflects(file),
    {
        PageIO { page_cache: PageCache::new(cache_capacity), page_size }
    }

    /// Reads a page from the cache, or says where in the file it stands.
    pub fn read_page(&self, page_id: PageId) -> (r: PageRead)
        requires
            self.size() <= usize::MAX,
            page_id * self.size() <= u64::MAX,
        ensures
            match r {
                PageRead::Cached(page) => {
                    &&& page.page_id() == page_id
                    &&& self.cached_pages().contains_key(page_id)
                    &&& page.bytes() == self.cached_pages()[page_id]
                },
                PageRead::Load { offset, len } => {
                    &&& offset == page_id * self.size()
                    &&& len == self.size()
                },
            },
    {
        let at_hand = self.page_cache.get(page_id);
        self.read_with(page_id, at_hand)
    }

    /// What it takes to read a page, given what the cache had of it: nothing more where it had the
    /// page, else its place in the file.
    pub fn read_with(&self, page_id: PageId, at_hand: Option<Arc<Vec<u8>>>) -> (r: PageRead)
        requires
            at_hand is None ==> self.size() <= usize::MAX && page_id * self.size() <= u64::MAX,
        ensures
            match at_hand {
                Some(data) => {
                    &&& r matches PageRead::Cached(page)
                    &&& page.page_id() == page_id
                    &&& page.bytes() == data@
                },
                None => {
                    &&& r matches PageRead::Load { offset, len }
                    &&& offset == page_id * self.size()
                    &&& len == self.size()
                },
            },
    {
        match at_hand {
            Some(data) => PageRead::Cached(Page::new(page_id, data)),
            None => PageRead::Load {
                offset: page_id * self.page_size,
                len: self.page_size as usize,
            },
        }
    }

    /// Takes in a page that was read from the file, and keeps it at hand.
    pub fn finish_read(&mut self, page_id: PageId, data: Vec<u8>) -> (r: Page)
        requires
            data@.len() == old(self).size(),
        ensures
            r.page_id() == page_id,
            r.bytes() == data@,
            final(self).size() == old(self).size(),
            final(self).cache_capacity() == old(self).cache_capacity(),
            final(self).cached_pages() == old(self).cached_pages().insert(page_id, data@),
            forall|file: Map<PageId, Seq<u8>>|
                #![trigger final(self).reflects(file)]
                old(self).reflects(file) && file.contains_key(page_id) && file[page_id] == data@
                    ==> final(self).reflects(file),
    {
        let page = Page::new(page_id, Arc::new(data));
        self.page_cache.insert(page_id, page.share_data());
        page
    }

    /// Says where in the file a page is to be written.
    pub fn write_page(&self, page: &Page) -> (r: Result<u64>)
        requires
            page.page_id() * self.size() <= u64::MAX,
        ensures
            match r {
                Ok(offset) => {
                    &&& page.bytes().len() == self.size()
                    &&& offset == page.page_id() * self.size()
                },
                Err(e) => {
                    &&& page.bytes().len() != self.size()
                    &&& e.is_database(
                        wrong_size_text(page.page_id(), page.bytes().len(), self.size()),
                    )
                },
            },
    {
        let page_id = page.id();
        let len = page.data().len();
        if len as u64 != self.page_size {
            let mut message = "page ".to_owned();
            push_decimal(&mut message, page_id);
            message.append(" has size ");
            push_decimal(&mut message, len as u64);
            message.append(", expected ");
            push_decimal(&mut message, self.page_size);
            return Err(Error::DatabaseError(message));
        }
        Ok(page_id * self.page_size)
    }

    /// Takes note that a page was written to the file.
    pub fn finish_write(&mut self, page: Page)
        ensures
            final(self).size() == old(self).size(),
            final(self).cache_capacity() == old(self).cache_capacity(),
            final(self).cached_pages() == old(self).cached_pages().insert(
                page.page_id(),
                page.bytes(),
            ),
            forall|file: Map<PageId, Seq<u8>>| #[trigger]
                old(self).reflects(file) ==> final(self).reflects(
                    file.insert(page.page_id(), page.bytes()),
                ),
    {
        let page_id = page.id();
        self.page_cache.insert(page_id, page.into_arc());
        proof {
            assert forall|p: PageId| #[trigger]
                self.cached_pages().contains_key(p) && p != page_id implies old(
                self,
            ).cached_pages().contains_key(p) by {}
        }
    }

    /// Drops a page from the cache.
    pub fn remove_page(&mut self, page_id: PageId)
        ensures
            final(self).size() == old(self).size(),
            final(self).cache_capacity() == old(self).cache_capacity(),
            final(self).cached_pages() == old(self).cached_pages().remove(page_id),
            forall|file: Map<PageId, Seq<u8>>| #[trigger]
                old(self).reflects(file) ==> final(self).reflects(file),
    {
        self.page_cache.remove(page_id);
        proof {
            assert forall|p: PageId| #[trigger]
                self.cached_pages().contains_key(p) && p != page_id implies old(
                self,
            ).cached_pages().contains_key(p) by {}
        }
    }

    pub fn page_size(&self) -> (r: u64)
        ensures
            r == self.size(),
    {
        self.page_size
    }
}

} // verus!
