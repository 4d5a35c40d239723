//! The database: opening and recovering a file, and beginning and publishing transactions.
//!
//! Reading and writing the file is left to the caller. What takes several reads is done step by
//! step: a step says what is to be read, and is given it with the next one.

use crate::kv::btree::leaf_node::{leaf_laid_out, leaf_pairs, leaf_wf};
use crate::kv::btree::node::{get_empty_leaf_page, node_kind, page_sound};
use crate::kv::btree::tree_model::Pages;
use crate::kv::btree::tree_verify::{
    all_intact, child_checks, intact, is_check_error, page_checked, page_passes, TreeVerifier,
    VerifyStep,
};
use crate::kv::bytes::u64_at;
use crate::kv::entries::Pair;
use crate::kv::error::{Error, Result};
use crate::kv::pages::checksum::{checksum_page, xxh3_128};
use crate::kv::pages::header::{CommitSlot, DbHeader, HEADER_MAGIC, HEADER_SIZE};
use crate::kv::pages::page::Page;
use crate::kv::pages::page_allocator::FreedPage;
use crate::kv::pages::page_io::PageIO;
use crate::kv::pages::page_manager::PageManager;
use crate::kv::pages::{PageId, HEADER_PAGE_ID, INITIAL_ROOT_PAGE_ID, MIN_PAGE_SIZE};
use crate::kv::text::{decimal, push_decimal};
use crate::kv::transactions::dirty_pages::DirtyPageSlot;
use crate::kv::transactions::read_tracker::{with_reader, without_reader, ReadTracker};
use crate::kv::transactions::read_transaction::ReadTransaction;
use crate::kv::transactions::write_transaction::{read_agrees, PendingCommit, WriteTransaction};
use crate::kv::transactions::TransactionId;
use std::sync::Arc;
use vstd::prelude::*;

verus! {

/// How many pages are kept at hand, where no number is asked for.
pub const DEFAULT_CACHE_CAPACITY: usize = 1048576;

/// The last commit: what the header says, and what readers begin with.
pub struct CommitState {
    header: DbHeader,
    snapshot: (PageId, TransactionId),
}

impl CommitState {
    /// The header.
    pub closed spec fn header(self) -> DbHeader {
        self.header
    }

    /// What readers begin with: a root, and the transaction that committed it.
    pub closed spec fn snapshot(self) -> (PageId, TransactionId) {
        self.snapshot
    }

    /// Whether readers begin with the commit that counts.
    pub open spec fn inv(self) -> bool {
        let slot = self.header().active();
        self.snapshot() == (slot.root_page_id, slot.transaction_id)
    }

    pub fn new(header: DbHeader) -> (r: Self)
        ensures
            r.header() == header,
            r.inv(),
    {
        let active_slot = header.active_slot();
        CommitState { header, snapshot: (active_slot.root_page_id, active_slot.transaction_id) }
    }

    pub fn active_slot(&self) -> (r: CommitSlot)
        ensures
            r == self.header().active(),
    {
        self.header.active_slot()
    }

    /// The header that publishes a commit. It is to be written and to have reached the disk before
    /// it counts.
    pub fn prepare(
        &self,
        root_page_id: PageId,
        root_page_checksum: u128,
        transaction_id: TransactionId,
        next_page_id: PageId,
    ) -> (r: DbHeader)
        ensures
            r.size() == self.header().size(),
            r.second_is_active() == !self.header().second_is_active(),
            r.active() == (CommitSlot {
                root_page_id,
                root_page_checksum,
                transaction_id,
                next_page_id,
            }),
            r.inactive() == self.header().active(),
    {
        self.header.with_commit(root_page_id, root_page_checksum, transaction_id, next_page_id)
    }

    /// Makes a header count.
    pub fn publish(&mut self, new_header: DbHeader)
        ensures
            final(self).header() == new_header,
            final(self).inv(),
    {
        let active_slot = new_header.active_slot();
        self.header = new_header;
        self.snapshot = (active_slot.root_page_id, active_slot.transaction_id);
    }
}

/// The message for a page size that is too small.
pub open spec fn page_size_text(page_size: u64) -> Seq<char> {
    "page size must be at least "@ + decimal(MIN_PAGE_SIZE as nat) + ", got "@ + decimal(
        page_size as nat,
    )
}

/// Whether a page size is accepted.
pub fn validate_page_size(page_size: u64) -> (r: Result<()>)
    ensures
        match r {
            Ok(()) => page_size >= MIN_PAGE_SIZE,
            Err(e) => page_size < MIN_PAGE_SIZE && e.is_database(page_size_text(page_size)),
        },
{
    if page_size < MIN_PAGE_SIZE {
        let mut message = "page size must be at least ".to_owned();
        push_decimal(&mut message, MIN_PAGE_SIZE);
        message.append(", got ");
        push_decimal(&mut message, page_size);
        return Err(Error::DatabaseError(message));
    }
    Ok(())
}

/// How many bytes of a file of this length are to be read for its header.
pub fn header_len(file_len: u64) -> (r: Result<usize>)
    ensures
        match r {
            Ok(len) => file_len >= HEADER_SIZE && len == HEADER_SIZE,
            Err(e) => file_len < HEADER_SIZE && e.is_database(
                "Database file size is less than header size"@,
            ),
        },
{
    if file_len < HEADER_SIZE as u64 {
        return Err(Error::database("Database file size is less than header size"));
    }
    Ok(HEADER_SIZE)
}

/// The error for bytes that are no header of a file.
pub open spec fn is_header_error(header_page: Seq<u8>, e: Error) -> bool {
    if header_page.len() < HEADER_SIZE {
        e.is_size()
    } else if u64_at(header_page, 0) != HEADER_MAGIC {
        e.is_database("invalid database header magic"@)
    } else if u64_at(header_page, 8) > 1 {
        e.is_database("invalid active commit slot"@)
    } else {
        let size = u64_at(header_page, 16);
        &&& size < MIN_PAGE_SIZE
        &&& e.is_database(page_size_text(size as u64))
    }
}

/// Reads the header of a file.
pub fn read_header(header_page: &[u8]) -> (r: Result<DbHeader>)
    ensures
        match r {
            Ok(header) => header.stands_in(header_page@) && header.size() >= MIN_PAGE_SIZE,
            Err(e) => is_header_error(header_page@, e),
        },
{
    let header = match DbHeader::parse(header_page) {
        Ok(header) => header,
        Err(e) => return Err(e),
    };
    match validate_page_size(header.page_size()) {
        Ok(()) => Ok(header),
        Err(e) => Err(e),
    }
}

/// What a new file is made of.
pub struct NewFile {
    pub header: DbHeader,
    /// How many pages the file has to have room for.
    pub page_count: u64,
    pub header_page: Page,
    pub root_page: Page,
}

/// Whether this is a new file with an empty tree.
pub open spec fn is_new_file(file: NewFile, page_size: u64) -> bool {
    &&& file.page_count == INITIAL_ROOT_PAGE_ID + 1
    &&& file.header.size() == page_size
    &&& !file.header.second_is_active()
    &&& file.header.active() == CommitSlot {
        root_page_id: INITIAL_ROOT_PAGE_ID,
        root_page_checksum: xxh3_128(file.root_page.bytes()),
        transaction_id: 0,
        next_page_id: file.page_count,
    }
    &&& file.header.inactive() == file.header.active()
    &&& file.header_page.page_id() == HEADER_PAGE_ID
    &&& file.header_page.bytes().len() == page_size
    &&& file.header.stands_in(file.header_page.bytes())
    &&& forall|i: int|
        HEADER_SIZE <= i < page_size ==> #[trigger] file.header_page.bytes()[i] == 0
    &&& file.root_page.page_id() == INITIAL_ROOT_PAGE_ID
    &&& file.root_page.bytes().len() == page_size
    &&& leaf_wf(file.root_page.bytes())
    &&& leaf_pairs(file.root_page.bytes()) == Seq::<Pair>::empty()
    &&& leaf_laid_out(
        file.root_page.bytes(),
        Seq::new(page_size as nat, |i: int| 0u8),
        Seq::empty(),
    )
}

/// A new file with an empty tree.
pub fn new_file(page_size: u64) -> (r: NewFile)
    requires
        HEADER_SIZE <= page_size <= usize::MAX,
    ensures
        is_new_file(r, page_size),
{
    let empty_leaf = get_empty_leaf_page(page_size as usize);
    let header = DbHeader::initial(page_size, checksum_page(empty_leaf.as_slice()));
    let page_count = header.active_slot().next_page_id;
    let header_page = Page::new(HEADER_PAGE_ID, Arc::new(header.encode_page()));
    let root_page = Page::new(INITIAL_ROOT_PAGE_ID, Arc::new(empty_leaf));
    NewFile { header, page_count, header_page, root_page }
}

/// How a recovery goes on.
pub enum RecoveryStep {
    /// This is the header to go on with.
    Done(DbHeader),
    /// One more page was looked at.
    Moved,
    /// So many bytes are to be read from there in the file.
    Load { page_id: PageId, offset: u64, len: usize },
}

/// Finds out which of the two commits of a header to go on with: the one that counts, or the one
/// before it where the pages of that one are not all there.
pub struct Recovery {
    header: DbHeader,
    verification: TreeVerifier,
    fallen_back: bool,
}

impl Recovery {
    /// The header as it was read.
    pub closed spec fn header(self) -> DbHeader {
        self.header
    }

    /// The pages that are left to be verified.
    pub closed spec fn verification(self) -> TreeVerifier {
        self.verification
    }

    /// Whether the commit that counts was given up.
    pub closed spec fn has_fallen_back(self) -> bool {
        self.fallen_back
    }

    /// Whether, given what the file holds, what is left to be verified decides the commit that is
    /// being looked at, and the one that counts was given up for a reason.
    pub open spec fn consistent(self, file: Pages) -> bool {
        let active = self.header().active();
        let inactive = self.header().inactive();
        if self.has_fallen_back() {
            &&& !intact(file, active.root_page_id, active.root_page_checksum)
            &&& all_intact(file, self.verification().pending()) == intact(
                file,
                inactive.root_page_id,
                inactive.root_page_checksum,
            )
        } else {
            all_intact(file, self.verification().pending()) == intact(
                file,
                active.root_page_id,
                active.root_page_checksum,
            )
        }
    }

    /// Begins with the commit that counts.
    pub fn begin(file_len: u64, header: DbHeader) -> (r: Result<Self>)
        ensures
            match r {
                Ok(recovery) => {
                    let slot = header.active();
                    &&& file_len >= header.size()
                    &&& recovery.header() == header
                    &&& !recovery.has_fallen_back()
                    &&& recovery.verification().pending() == seq![
                        (slot.root_page_id, slot.root_page_checksum),
                    ]
                    &&& forall|file: Pages| #[trigger] recovery.consistent(file)
                },
                Err(e) => file_len < header.size() && e.is_database(
                    "Database file size is less than page size"@,
                ),
            },
    {
        if file_len < header.page_size() {
            return Err(Error::database("Database file size is less than page size"));
        }
        let active_slot = header.active_slot();
        let verification = TreeVerifier::new(
            active_slot.root_page_id,
            active_slot.root_page_checksum,
        );
        let recovery = Recovery { header, verification, fallen_back: false };
        proof {
            assert forall|file: Pages| #[trigger] recovery.consistent(file) by {
                lemma_one_intact(
                    file,
                    active_slot.root_page_id,
                    active_slot.root_page_checksum,
                );
            }
        }
        Ok(recovery)
    }

    /// The page that comes next.
    pub fn next_page_id(&self) -> (r: Option<PageId>)
        ensures
            r == self.verification().next(),
    {
        self.verification.next_page_id()
    }

    /// Looks at one more page. A page that is not at hand is asked for, and is to be passed in with
    /// the next call.
    pub fn recover_header(&mut self, pages: &mut PageIO, loaded: Option<Vec<u8>>) -> (r: Result<
        RecoveryStep,
    >)
        requires
            old(pages).size() <= usize::MAX,
            old(self).verification().next() matches Some(next) ==> next * old(pages).size()
                <= u64::MAX,
            loaded matches Some(data) ==> data@.len() == old(pages).size(),
        ensures
            final(self).header() == old(self).header(),
            final(pages).size() == old(pages).size(),
            final(pages).cache_capacity() == old(pages).cache_capacity(),
            match r {
                Ok(RecoveryStep::Done(header)) => {
                    &&& *final(self) == *old(self)
                    &&& old(self).verification().pending().len() == 0
                    &&& header == if old(self).has_fallen_back() {
                        old(self).header().switched()
                    } else {
                        old(self).header()
                    }
                },
                Ok(RecoveryStep::Load { page_id, offset, len }) => {
                    &&& loaded is None
                    &&& old(self).verification().next() == Some(page_id)
                    &&& offset == page_id * old(pages).size()
                    &&& len == old(pages).size()
                    &&& *final(self) == *old(self)
                },
                Ok(RecoveryStep::Moved) => {
                    let pending = old(self).verification().pending();
                    let inactive = old(self).header().inactive();
                    &&& pending.len() > 0
                    &&& exists|bytes: Seq<u8>| #[trigger]
                        page_checked(*old(pages), pending[0].0, loaded, bytes) && if page_passes(
                            pending[0],
                            bytes,
                        ) {
                            &&& final(self).has_fallen_back() == old(self).has_fallen_back()
                            &&& final(self).verification().pending() == child_checks(bytes)
                                + pending.drop_first()
                        } else {
                            &&& !old(self).has_fallen_back()
                            &&& final(self).has_fallen_back()
                            &&& final(self).verification().pending() == seq![
                                (inactive.root_page_id, inactive.root_page_checksum),
                            ]
                            &&& exists|e: Error| #[trigger]
                                is_check_error(pending[0], bytes, e) && e is DatabaseError
                        }
                },
                Err(e) => {
                    let pending = old(self).verification().pending();
                    &&& *final(self) == *old(self)
                    &&& pending.len() > 0
                    &&& exists|bytes: Seq<u8>| #[trigger]
                        page_checked(*old(pages), pending[0].0, loaded, bytes) && !page_passes(
                            pending[0],
                            bytes,
                        ) && is_check_error(pending[0], bytes, e)
                    &&& old(self).has_fallen_back() || !(e is DatabaseError)
                },
            },
            forall|file: Pages|
                old(pages).reflects(file) && #[trigger] read_agrees(
                    old(self).verification().next(),
                    loaded,
                    file,
                ) && old(self).consistent(file) ==> {
                    let active = old(self).header().active();
                    let inactive = old(self).header().inactive();
                    let active_intact = intact(
                        file,
                        active.root_page_id,
                        active.root_page_checksum,
                    );
                    let inactive_intact = intact(
                        file,
                        inactive.root_page_id,
                        inactive.root_page_checksum,
                    );
                    &&& final(pages).reflects(file)
                    &&& final(self).consistent(file)
                    &&& match r {
                        Ok(RecoveryStep::Done(header)) => if active_intact {
                            header == old(self).header()
                        } else {
                            inactive_intact && header == old(self).header().switched()
                        },
                        Ok(_) => true,
                        Err(e) => !active_intact && (e is DatabaseError ==> !inactive_intact),
                    }
                },
    {
        match self.verification.verify_pages(pages, loaded) {
            Ok(VerifyStep::Done) => {
                let mut header = self.header;
                if self.fallen_back {
                    header.switch_to_inactive_slot();
                }
                Ok(RecoveryStep::Done(header))
            },
            Ok(VerifyStep::Moved) => Ok(RecoveryStep::Moved),
            Ok(VerifyStep::Load { page_id, offset, len }) => Ok(
                RecoveryStep::Load { page_id, offset, len },
            ),
            Err(e) => {
                if self.fallen_back {
                    return Err(e);
                }
                let ghost found = e;
                match e {
                    Error::DatabaseError(_) => {
                        let inactive_slot = self.header.inactive_slot();
                        self.verification = TreeVerifier::new(
                            inactive_slot.root_page_id,
                            inactive_slot.root_page_checksum,
                        );
                        self.fallen_back = true;
                        proof {
                            assert(is_check_error(
                                old(self).verification().pending()[0],
                                choose|bytes: Seq<u8>| #[trigger]
                                    page_checked(
                                        *old(pages),
                                        old(self).verification().pending()[0].0,
                                        loaded,
                                        bytes,
                                    ) && !page_passes(
                                        old(self).verification().pending()[0],
                                        bytes,
                                    ) && is_check_error(
                                        old(self).verification().pending()[0],
                                        bytes,
                                        found,
                                    ),
                                found,
                            ));
                            assert forall|file: Pages|
                                all_intact(file, self.verification().pending()) == intact(
                                    file,
                                    inactive_slot.root_page_id,
                                    inactive_slot.root_page_checksum,
                                ) by {
                                lemma_one_intact(
                                    file,
                                    inactive_slot.root_page_id,
                                    inactive_slot.root_page_checksum,
                                );
                            }
                        }
                        Ok(RecoveryStep::Moved)
                    },
                    e => Err(e),
                }
            },
        }
    }
}

proof fn lemma_one_intact(file: Pages, page_id: PageId, checksum: u128)
    ensures
        all_intact(file, seq![(page_id, checksum)]) == intact(file, page_id, checksum),
{
    let one = seq![(page_id, checksum)];
    assert(one[0] == (page_id, checksum));
}

/// The pages that a transaction frees.
pub open spec fn freed_entries(page_ids: Seq<PageId>, transaction_id: TransactionId) -> Seq<
    FreedPage,
> {
    Seq::new(page_ids.len(), |i: int| FreedPage { page_id: page_ids[i], transaction_id })
}

/// All pages that a transaction frees are listed, in their order, each with the transaction.
pub proof fn law_freed_pages_are_all_listed(page_ids: Seq<PageId>, transaction_id: TransactionId)
    ensures
        freed_entries(page_ids, transaction_id).len() == page_ids.len(),
        forall|i: int|
            0 <= i < page_ids.len() ==> {
                let entry = #[trigger] freed_entries(page_ids, transaction_id)[i];
                entry.page_id == page_ids[i] && entry.transaction_id == transaction_id
            },
{
}

/// A database that is open.
pub struct Database {
    pub page_manager: PageManager,
    pub read_tracker: ReadTracker,
    pub commit: CommitState,
}

impl Database {
    /// Whether the parts fit together.
    pub open spec fn inv(self) -> bool {
        &&& self.commit.inv()
        &&& self.read_tracker.inv()
        &&& self.page_manager.allocator().inv()
        &&& self.page_manager.io().size() == self.commit.header().size()
        &&& HEADER_SIZE <= self.page_manager.io().size() <= usize::MAX
    }

    /// Begins to open a file that is there, given its header: what is left is to find out which
    /// commit to go on with.
    pub fn open_existing(header_page: &[u8], cache_capacity: usize) -> (r: Result<
        (PageIO, DbHeader),
    >)
        ensures
            match r {
                Ok((page_io, header)) => {
                    &&& header.stands_in(header_page@)
                    &&& header.size() >= MIN_PAGE_SIZE
                    &&& page_io.size() == header.size()
                    &&& page_io.cache_capacity() == cache_capacity
                    &&& page_io.cached_pages() == Map::<PageId, Seq<u8>>::empty()
                },
                Err(e) => is_header_error(header_page@, e),
            },
    {
        match read_header(header_page) {
            Ok(header) => Ok((PageIO::new(header.page_size(), cache_capacity), header)),
            Err(e) => Err(e),
        }
    }

    /// Begins to make a new file: what is left is to write its pages.
    pub fn open_new(page_size: u64, cache_capacity: usize) -> (r: Result<(PageIO, NewFile)>)
        requires
            page_size <= usize::MAX,
        ensures
            match r {
                Ok((page_io, file)) => {
                    &&& page_size >= MIN_PAGE_SIZE
                    &&& page_io.size() == page_size
                    &&& page_io.cache_capacity() == cache_capacity
                    &&& page_io.cached_pages() == Map::<PageId, Seq<u8>>::empty()
                    &&& is_new_file(file, page_size)
                },
                Err(e) => page_size < MIN_PAGE_SIZE && e.is_database(page_size_text(page_size)),
            },
    {
        match validate_page_size(page_size) {
            Ok(()) => Ok((PageIO::new(page_size, cache_capacity), new_file(page_size))),
            Err(e) => Err(e),
        }
    }

    /// The database in a file of this length, with this header.
    pub fn from_parts(file_len: u64, page_io: PageIO, header: DbHeader) -> (r: Self)
        requires
            page_io.size() == header.size(),
            HEADER_SIZE <= header.size() <= usize::MAX,
        ensures
            r.inv(),
            r.commit.header() == header,
            r.page_manager.io() == page_io,
            r.page_manager.allocator().freed() == Seq::<FreedPage>::empty(),
            r.page_manager.allocator().next() == header.active().next_page_id,
            r.page_manager.allocator().reserved() == file_len / header.size(),
            !r.page_manager.allocator().growth_is_due(),
            r.read_tracker.readers() == Map::<TransactionId, u64>::empty(),
    {
        let active_slot = header.active_slot();
        Database {
            page_manager: PageManager::new(page_io, file_len, active_slot.next_page_id),
            read_tracker: ReadTracker::new(),
            commit: CommitState::new(header),
        }
    }

    /// Begins to read the last commit. The pages that it sees are not reused before `end_read`.
    pub fn begin_read(&mut self) -> (r: ReadTransaction)
        requires
            old(self).inv(),
            ({
                let transaction = old(self).commit.snapshot().1;
                let readers = old(self).read_tracker.readers();
                readers.contains_key(transaction) ==> readers[transaction] < u64::MAX
            }),
        ensures
            final(self).inv(),
            r.root() == old(self).commit.header().active().root_page_id,
            r.id() == old(self).commit.header().active().transaction_id,
            final(self).page_manager == old(self).page_manager,
            final(self).commit == old(self).commit,
            final(self).read_tracker.readers() == with_reader(
                old(self).read_tracker.readers(),
                r.id(),
            ),
    {
        let (root_page_id, transaction_id) = self.commit.snapshot;
        self.read_tracker.begin_read(transaction_id);
        ReadTransaction::new(root_page_id, transaction_id)
    }

    /// Ends a transaction that reads.
    pub fn end_read(&mut self, transaction: &ReadTransaction)
        requires
            old(self).inv(),
        ensures
            final(self).inv(),
            final(self).page_manager == old(self).page_manager,
            final(self).commit == old(self).commit,
            final(self).read_tracker.readers() == without_reader(
                old(self).read_tracker.readers(),
                transaction.id(),
            ),
    {
        self.read_tracker.end_read(transaction.transaction_id());
    }

    /// Begins to change the tree. There is to be one such transaction at a time.
    pub fn begin_write(&self) -> (r: WriteTransaction)
        requires
            self.inv(),
            self.commit.header().active().transaction_id < u64::MAX,
        ensures
            r.id() == self.commit.header().active().transaction_id + 1,
            r.root() == self.commit.header().active().root_page_id,
            r.root_checksum() == self.commit.header().active().root_page_checksum,
            r.slots() == Map::<PageId, DirtyPageSlot>::empty(),
            r.freed() == Seq::<PageId>::empty(),
            !r.is_failed(),
            r.works_on(self.page_manager),
            r.settled(),
    {
        let commit_slot = self.commit.active_slot();
        let transaction = WriteTransaction::new(
            commit_slot.transaction_id,
            commit_slot.root_page_id,
            commit_slot.root_page_checksum,
        );
        assert(transaction.slots().dom() =~= Set::<PageId>::empty());
        transaction
    }

    /// The header that publishes a commit, and the page that it is to be written on once the pages
    /// of the commit have been.
    pub fn prepare_commit(&self, pending: &PendingCommit) -> (r: (DbHeader, Page))
        requires
            self.inv(),
        ensures
            r.0.size() == self.commit.header().size(),
            r.0.second_is_active() == !self.commit.header().second_is_active(),
            r.0.active() == (CommitSlot {
                root_page_id: pending.root(),
                root_page_checksum: pending.root_checksum(),
                transaction_id: pending.id(),
                next_page_id: self.page_manager.allocator().next(),
            }),
            r.0.inactive() == self.commit.header().active(),
            r.1.page_id() == HEADER_PAGE_ID,
            r.1.bytes().len() == self.commit.header().size(),
            r.0.stands_in(r.1.bytes()),
            forall|i: int| HEADER_SIZE <= i < r.1.bytes().len() ==> #[trigger] r.1.bytes()[i] == 0,
            page_sound(r.1.bytes()),
    {
        let new_header = self.commit.prepare(
            pending.root_page_id(),
            pending.root_page_checksum(),
            pending.transaction_id(),
            self.page_manager.next_page_id(),
        );
        let page = Page::new(HEADER_PAGE_ID, Arc::new(new_header.encode_page()));
        proof {
            assert(node_kind(page.bytes()) == HEADER_MAGIC);
        }
        (new_header, page)
    }

    /// Publishes a commit, once its header has reached the disk: readers see it from now on, and
    /// the pages that it does not use any more are free.
    pub fn finish_commit(&mut self, pending: PendingCommit, new_header: DbHeader)
        requires
            old(self).commit.inv(),
        ensures
            final(self).commit.header() == new_header,
            final(self).commit.inv(),
            final(self).read_tracker == old(self).read_tracker,
            final(self).page_manager.io() == old(self).page_manager.io(),
            final(self).page_manager.allocator().freed() == old(
                self,
            ).page_manager.allocator().freed() + freed_entries(pending.freed(), pending.id()),
            final(self).page_manager.allocator().next() == old(
                self,
            ).page_manager.allocator().next(),
            final(self).page_manager.allocator().reserved() == old(
                self,
            ).page_manager.allocator().reserved(),
            final(self).page_manager.allocator().growth_is_due() == old(
                self,
            ).page_manager.allocator().growth_is_due(),
    {
        self.commit.publish(new_header);
        let freed_pages = pending.freed_pages();
        let transaction_id = pending.transaction_id();
        let ghost entries = freed_entries(pending.freed(), pending.id());
        let mut i: usize = 0;
        while i < freed_pages.len()
            invariant
                i <= freed_pages@.len(),
                freed_pages@ == pending.freed(),
                transaction_id == pending.id(),
                entries == freed_entries(pending.freed(), pending.id()),
                self.commit.header() == new_header,
                self.commit.inv(),
                self.read_tracker == old(self).read_tracker,
                self.page_manager.io() == old(self).page_manager.io(),
                self.page_manager.allocator().freed() == old(self).page_manager.allocator().freed()
                    + entries.take(i as int),
                self.page_manager.allocator().next() == old(self).page_manager.allocator().next(),
                self.page_manager.allocator().reserved() == old(
                    self,
                ).page_manager.allocator().reserved(),
                self.page_manager.allocator().growth_is_due() == old(
                    self,
                ).page_manager.allocator().growth_is_due(),
            decreases freed_pages@.len() - i,
        {
            self.page_manager.free_page(freed_pages[i], transaction_id);
            proof {
                assert(entries.take(i + 1) =~= entries.take(i as int).push(entries[i as int]));
                assert(self.page_manager.allocator().freed() =~= old(
                    self,
                ).page_manager.allocator().freed() + entries.take(i + 1));
            }
            i += 1;
        }
        proof {
            assert(entries.take(i as int) =~= entries);
        }
    }
}

} // verus!
