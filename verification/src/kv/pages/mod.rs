//! Pages: how they are laid out in the file, cached, allocated and reused.

pub mod checksum;
pub mod header;
pub mod page;
pub mod page_allocator;
pub mod page_cache;
pub mod page_io;
pub mod page_manager;

use vstd::prelude::*;

verus! {

/// Names a page by its position in the file.
pub type PageId = u64;

/// The page that holds the header.
pub const HEADER_PAGE_ID: PageId = 0;

/// The page that holds the root of a new tree.
pub const INITIAL_ROOT_PAGE_ID: PageId = 1;

/// The size of a page, where none is asked for.
pub const DEFAULT_PAGE_SIZE: u64 = 4096;

/// The least size that a page may have.
pub const MIN_PAGE_SIZE: u64 = 4096;

} // verus!
