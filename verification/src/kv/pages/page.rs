//! The contents of a page in memory.

use crate::kv::pages::PageId;
use std::sync::Arc;
use vstd::prelude::*;

verus! {

/// A page as it stands in the file. Its contents are shared, and never change.
pub struct Page {
    id: PageId,
    data: Arc<Vec<u8>>,
}

/// A page that a transaction works on.
pub struct PageMut {
    id: PageId,
    data: Vec<u8>,
}

/// Another handle on the same contents: `Arc::clone`, which makes a pointer to the same allocation.
#[verifier::external_body]
fn share(data: &Arc<Vec<u8>>) -> (r: Arc<Vec<u8>>)
    ensures
        r@ == data@,
{
    Arc::clone(data)
}

impl Page {
    /// Which page this is.
    pub closed spec fn page_id(self) -> PageId {
        self.id
    }

    /// What it holds.
    pub closed spec fn bytes(self) -> Seq<u8> {
        self.data@
    }

    pub fn new(id: PageId, data: Arc<Vec<u8>>) -> (r: Self)
        ensures
            r.page_id() == id,
            r.bytes() == data@,
    {
        Page { id, data }
    }

    pub fn data(&self) -> (r: &[u8])
        ensures
            r@ == self.bytes(),
    {
        self.data.as_slice()
    }

    pub fn into_arc(self) -> (r: Arc<Vec<u8>>)
        ensures
            r@ == self.bytes(),
    {
        self.data
    }

    /// A second handle on the contents.
    pub fn share_data(&self) -> (r: Arc<Vec<u8>>)
        ensures
            r@ == self.bytes(),
    {
        share(&self.data)
    }

    pub fn id(&self) -> (r: PageId)
        ensures
            r == self.page_id(),
    {
        self.id
    }
}

impl PageMut {
    /// Which page this is.
    pub closed spec fn page_id(self) -> PageId {
        self.id
    }

    /// What it holds.
    pub closed spec fn bytes(self) -> Seq<u8> {
        self.data@
    }

    /// A page of zeros.
    pub fn zeroed(id: PageId, page_size: usize) -> (r: Self)
        ensures
            r.page_id() == id,
            r.bytes() == Seq::new(page_size as nat, |i: int| 0u8),
    {
        let data: Vec<u8> = vec![0; page_size];
        assert(data@ =~= Seq::new(page_size as nat, |i: int| 0u8));
        PageMut { id, data }
    }

    /// A page with these contents.
    pub fn with_data(id: PageId, data: Vec<u8>) -> (r: Self)
        ensures
            r.page_id() == id,
            r.bytes() == data@,
    {
        PageMut { id, data }
    }

    pub fn data(&self) -> (r: &[u8])
        ensures
            r@ == self.bytes(),
    {
        self.data.as_slice()
    }

    /// Gives the contents up to be changed.
    pub fn into_data(self) -> (r: Vec<u8>)
        ensures
            r@ == self.bytes(),
    {
        self.data
    }

    /// Overwrites the contents with those of `src`.
    pub fn copy_page_from(&mut self, src: &[u8])
        requires
            src@.len() == old(self).bytes().len(),
        ensures
            final(self).page_id() == old(self).page_id(),
            final(self).bytes() == src@,
    {
        self.data = vstd::slice::slice_to_vec(src);
    }

    /// The page as it is to be written.
    pub fn freeze(self) -> (r: Page)
        ensures
            r.page_id() == self.page_id(),
            r.bytes() == self.bytes(),
    {
        Page { id: self.id, data: Arc::new(self.data) }
    }

    pub fn id(&self) -> (r: PageId)
        ensures
            r == self.page_id(),
    {
        self.id
    }
}

} // verus!
