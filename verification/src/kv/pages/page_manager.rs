//! Reading, writing, handing out and freeing pages.

use crate::kv::error::Result;
use crate::kv::pages::page::{Page, PageMut};
use crate::kv::pages::page_allocator::{oldest_or_max, FreedPage, PageAllocator};
use crate::kv::pages::page_io::{wrong_size_text, PageIO, PageRead};
use crate::kv::pages::PageId;
use crate::kv::transactions::TransactionId;
use vstd::prelude::*;

verus! {

/// The pages of a file, and which of them are free.
pub struct PageManager {
    page_reader: PageIO,
    page_allocator: PageAllocator,
}

impl PageManager {
    /// Reads and writes pages.
    pub closed spec fn io(self) -> PageIO {
        self.page_reader
    }

    /// Hands pages out.
    pub closed spec fn allocator(self) -> PageAllocator {
        self.page_allocator
    }

    /// Whether pages have the same size, and the cache, as large as it was, still shows what the file
    /// holds.
    pub open spec fn same_file(self, before: Self) -> bool {
        &&& self.io().size() == before.io().size()
        &&& self.io().cache_capacity() == before.io().cache_capacity()
        &&& forall|file: Map<PageId, Seq<u8>>| #[trigger]
            before.io().reflects(file) ==> self.io().reflects(file)
    }

    pub fn new(page_reader: PageIO, file_len: u64, next_page_id: PageId) -> (r: Self)
        requires
            page_reader.size() > 0,
        ensures
            r.io() == page_reader,
            r.allocator().freed() == Seq::<FreedPage>::empty(),
            r.allocator().next() == next_page_id,
            r.allocator().reserved() == file_len / page_reader.size(),
            !r.allocator().growth_is_due(),
            r.allocator().inv(),
    {
        let page_size = page_reader.page_size();
        PageManager {
            page_reader,
            page_allocator: PageAllocator::new(file_len, page_size, next_page_id),
        }
    }

    /// Reads a page from the cache, or says where in the file it stands.
    pub fn read_page(&self, page_id: PageId) -> (r: PageRead)
        requires
            self.io().size() <= usize::MAX,
            page_id * self.io().size() <= u64::MAX,
        ensures
            match r {
                PageRead::Cached(page) => {
                    &&& page.page_id() == page_id
                    &&& self.io().cached_pages().contains_key(page_id)
                    &&& page.bytes() == self.io().cached_pages()[page_id]
                },
                PageRead::Load { offset, len } => {
                    &&& offset == page_id * self.io().size()
                    &&& len == self.io().size()
                },
            },
    {
        self.page_reader.read_page(page_id)
    }

    /// Takes in a page that was read from the file, and keeps it at hand.
    pub fn finish_read(&mut self, page_id: PageId, data: Vec<u8>) -> (r: Page)
        requires
            data@.len() == old(self).io().size(),
        ensures
            r.page_id() == page_id,
            r.bytes() == data@,
            final(self).allocator() == old(self).allocator(),
            final(self).io().size() == old(self).io().size(),
            final(self).io().cache_capacity() == old(self).io().cache_capacity(),
            final(self).io().cached_pages() == old(self).io().cached_pages().insert(page_id, data@),
            forall|file: Map<PageId, Seq<u8>>|
                #![trigger final(self).io().reflects(file)]
                old(self).io().reflects(file) && file.contains_key(page_id) && file[page_id]
                    == data@ ==> final(self).io().reflects(file),
    {
        self.page_reader.finish_read(page_id, data)
    }

    /// Says where in the file a page is to be written.
    pub fn write_page(&self, page: &Page) -> (r: Result<u64>)
        requires
            page.page_id() * self.io().size() <= u64::MAX,
        ensures
            match r {
                Ok(offset) => {
                    &&& page.bytes().len() == self.io().size()
                    &&& offset == page.page_id() * self.io().size()
                },
                Err(e) => {
                    &&& page.bytes().len() != self.io().size()
                    &&& e.is_database(
                        wrong_size_text(page.page_id(), page.bytes().len(), self.io().size()),
                    )
                },
            },
    {
        self.page_reader.write_page(page)
    }

    /// Takes note that a page was written to the file.
    pub fn finish_write(&mut self, page: Page)
        ensures
            final(self).allocator() == old(self).allocator(),
            final(self).io().size() == old(self).io().size(),
            final(self).io().cache_capacity() == old(self).io().cache_capacity(),
            final(self).io().cached_pages() == old(self).io().cached_pages().insert(
                page.page_id(),
                page.bytes(),
            ),
            forall|file: Map<PageId, Seq<u8>>| #[trigger]
                old(self).io().reflects(file) ==> final(self).io().reflects(
                    file.insert(page.page_id(), page.bytes()),
                ),
    {
        self.page_reader.finish_write(page);
    }

    /// Hands out a page of zeros that nobody uses.
    pub fn allocate_page(&mut self, oldest: Option<TransactionId>) -> (r: PageMut)
        requires
            old(self).io().size() <= usize::MAX,
            old(self).allocator().reusable(oldest) || old(self).allocator().next() < u64::MAX,
        ensures
            old(self).allocator().reusable(oldest) ==> {
                &&& r.page_id() == old(self).allocator().freed()[0].page_id
                &&& final(self).allocator().freed() == old(self).allocator().freed().drop_first()
                &&& final(self).allocator().next() == old(self).allocator().next()
                &&& final(self).allocator().growth_is_due()
                    == old(self).allocator().growth_is_due()
            },
            !old(self).allocator().reusable(oldest) ==> {
                &&& r.page_id() == old(self).allocator().next()
                &&& final(self).allocator().freed() == old(self).allocator().freed()
                &&& final(self).allocator().next() == old(self).allocator().next() + 1
                &&& final(self).allocator().growth_is_due() == (final(self).allocator().next()
                    > final(self).allocator().reserved())
            },
            final(self).allocator().reserved() == old(self).allocator().reserved(),
            old(self).allocator().inv() ==> {
                &&& final(self).allocator().inv()
                &&& r.page_id() < final(self).allocator().next()
            },
            forall|pages: Set<PageId>, transaction: TransactionId|
                oldest_or_max(oldest) <= transaction && #[trigger] old(self).allocator().retains(
                    pages,
                    transaction,
                ) ==> {
                    &&& !pages.contains(r.page_id())
                    &&& final(self).allocator().retains(pages, transaction)
                    &&& old(self).allocator().inv() ==> final(self).allocator().retains(
                        pages.insert(r.page_id()),
                        transaction,
                    )
                },
            r.bytes() == Seq::new(old(self).io().size() as nat, |i: int| 0u8),
            final(self).io().size() == old(self).io().size(),
            final(self).io().cache_capacity() == old(self).io().cache_capacity(),
            final(self).io().cached_pages() == old(self).io().cached_pages().remove(r.page_id()),
            forall|file: Map<PageId, Seq<u8>>| #[trigger]
                old(self).io().reflects(file) ==> final(self).io().reflects(file),
    {
        let page_id = self.page_allocator.allocate_page_id(oldest);
        self.page_reader.remove_page(page_id);
        PageMut::zeroed(page_id, self.page_reader.page_size() as usize)
    }

    /// How many pages the file has to grow by before the pages that were handed out can be written.
    pub fn growth(&self) -> (r: Option<u64>)
        ensures
            r == if self.allocator().growth_is_due() {
                Some(crate::kv::pages::page_allocator::PAGE_ALLOCATION_BATCH)
            } else {
                None
            },
    {
        self.page_allocator.growth()
    }

    /// Takes note that the file has grown and has room for this many pages now.
    pub fn reserve(&mut self, page_count: u64)
        ensures
            final(self).io() == old(self).io(),
            final(self).allocator().reserved() == page_count,
            final(self).allocator().growth_is_due() == (final(self).allocator().next()
                > page_count),
            final(self).allocator().freed() == old(self).allocator().freed(),
            final(self).allocator().next() == old(self).allocator().next(),
    {
        self.page_allocator.reserve(page_count);
    }

    pub fn free_page(&mut self, page_id: PageId, transaction_id: TransactionId)
        ensures
            final(self).io() == old(self).io(),
            final(self).allocator().freed() == old(self).allocator().freed().push(
                FreedPage { page_id, transaction_id },
            ),
            final(self).allocator().next() == old(self).allocator().next(),
            final(self).allocator().reserved() == old(self).allocator().reserved(),
            final(self).allocator().growth_is_due() == old(self).allocator().growth_is_due(),
    {
        self.page_allocator.free_page(page_id, transaction_id);
    }

    /// Whether a page was handed out and is not free.
    pub fn is_in_use(&self, page_id: PageId) -> (r: bool)
        ensures
            r == self.allocator().retains(Set::empty().insert(page_id), u64::MAX),
    {
        self.page_allocator.is_in_use(page_id)
    }

    pub fn next_page_id(&self) -> (r: PageId)
        ensures
            r == self.allocator().next(),
    {
        self.page_allocator.next_page_id()
    }

    pub fn page_size(&self) -> (r: u64)
        ensures
            r == self.io().size(),
    {
        self.page_reader.page_size()
    }
}

} // verus!
