//! The header of the file: where the last two commits are.
//!
//! The header stands at the beginning of the first page. It names the two latest commits, and which
//! of them counts. A commit overwrites the one that does not count, and then makes it the one that
//! does, in a single write.

use crate::kv::bytes::{
    lemma_splice_u128, lemma_splice_u64, lemma_u128_at_same, lemma_u128_bytes, lemma_u64_at_same,
    lemma_u64_bytes, read_u128, read_u64, same_range, u128_at, u64_at, write_u128, write_u64,
};
use crate::kv::error::{Error, Result};
use crate::kv::pages::{PageId, INITIAL_ROOT_PAGE_ID};
use crate::kv::transactions::TransactionId;
use vstd::prelude::*;

verus! {

/// The text `RUSTDB01`, as a little-endian integer.
pub const HEADER_MAGIC: u64 = 0x3130_4244_5453_5552;

/// The size of the header.
pub const HEADER_SIZE: usize = 104;

/// The size of a commit in the header.
pub const COMMIT_SLOT_SIZE: usize = 40;

/// A commit.
#[derive(Debug, Clone, Copy, PartialEq, Eq, Structural)]
pub struct CommitSlot {
    pub root_page_id: PageId,
    pub root_page_checksum: u128,
    pub transaction_id: TransactionId,
    pub next_page_id: PageId,
}

/// The header of the file.
#[derive(Debug, Clone, Copy, PartialEq, Eq, Structural)]
pub struct DbHeader {
    active_second: bool,
    page_size: u64,
    first_slot: CommitSlot,
    second_slot: CommitSlot,
}

/// Whether a commit stands at `offset`.
pub open spec fn slot_stands_at(slot: CommitSlot, bytes: Seq<u8>, offset: int) -> bool {
    &&& u64_at(bytes, offset) == slot.root_page_id
    &&& u128_at(bytes, offset + 8) == slot.root_page_checksum
    &&& u64_at(bytes, offset + 24) == slot.transaction_id
    &&& u64_at(bytes, offset + 32) == slot.next_page_id
}

impl CommitSlot {
    /// Reads the commit at `offset`.
    fn read(bytes: &[u8], offset: usize) -> (r: Self)
        requires
            offset + COMMIT_SLOT_SIZE <= bytes@.len(),
        ensures
            slot_stands_at(r, bytes@, offset as int),
    {
        let size = bytes.len();
        CommitSlot {
            root_page_id: read_u64(bytes, offset),
            root_page_checksum: read_u128(bytes, offset + 8),
            transaction_id: read_u64(bytes, offset + 24),
            next_page_id: read_u64(bytes, offset + 32),
        }
    }

    /// Writes the commit to `offset`.
    fn write(&self, page: &mut Vec<u8>, offset: usize)
        requires
            offset + COMMIT_SLOT_SIZE <= old(page)@.len(),
            old(page)@.len() <= usize::MAX,
        ensures
            final(page)@.len() == old(page)@.len(),
            slot_stands_at(*self, final(page)@, offset as int),
            same_range(final(page)@, old(page)@, 0, offset as int),
            same_range(
                final(page)@,
                old(page)@,
                offset + COMMIT_SLOT_SIZE,
                old(page)@.len() as int,
            ),
    {
        let ghost at = offset as int;
        proof {
            lemma_u64_bytes(self.root_page_id);
            lemma_u128_bytes(self.root_page_checksum);
            lemma_u64_bytes(self.transaction_id);
            lemma_u64_bytes(self.next_page_id);
        }
        let ghost page0 = page@;
        write_u64(page, offset, self.root_page_id);
        let ghost page1 = page@;
        write_u128(page, offset + 8, self.root_page_checksum);
        let ghost page2 = page@;
        write_u64(page, offset + 24, self.transaction_id);
        let ghost page3 = page@;
        write_u64(page, offset + 32, self.next_page_id);
        proof {
            lemma_splice_u64(page0, at, self.root_page_id);
            lemma_splice_u128(page1, at + 8, self.root_page_checksum);
            lemma_splice_u64(page2, at + 24, self.transaction_id);
            lemma_splice_u64(page3, at + 32, self.next_page_id);
            lemma_u64_at_same(page1, page@, at);
            lemma_u128_at_same(page2, page@, at + 8);
            lemma_u64_at_same(page3, page@, at + 24);
        }
    }
}

impl DbHeader {
    /// Which of the two commits counts.
    pub closed spec fn second_is_active(self) -> bool {
        self.active_second
    }

    /// The size of a page.
    pub closed spec fn size(self) -> u64 {
        self.page_size
    }

    /// The first commit.
    pub closed spec fn first(self) -> CommitSlot {
        self.first_slot
    }

    /// The second commit.
    pub closed spec fn second(self) -> CommitSlot {
        self.second_slot
    }

    /// The commit that counts.
    pub open spec fn active(self) -> CommitSlot {
        if self.second_is_active() {
            self.second()
        } else {
            self.first()
        }
    }

    /// The commit before that.
    pub open spec fn inactive(self) -> CommitSlot {
        if self.second_is_active() {
            self.first()
        } else {
            self.second()
        }
    }

    /// The header with the other commit as the one that counts.
    pub closed spec fn switched(self) -> Self {
        DbHeader {
            active_second: !self.active_second,
            page_size: self.page_size,
            first_slot: self.first_slot,
            second_slot: self.second_slot,
        }
    }

    /// Whether these bytes begin with this header.
    pub open spec fn stands_in(self, bytes: Seq<u8>) -> bool {
        &&& bytes.len() >= HEADER_SIZE
        &&& u64_at(bytes, 0) == HEADER_MAGIC
        &&& u64_at(bytes, 8) == if self.second_is_active() {
            1nat
        } else {
            0
        }
        &&& u64_at(bytes, 16) == self.size()
        &&& slot_stands_at(self.first(), bytes, 24)
        &&& slot_stands_at(self.second(), bytes, 64)
    }

    /// Reads a header.
    pub fn parse(bytes: &[u8]) -> (r: Result<Self>)
        ensures
            match r {
                Ok(header) => header.stands_in(bytes@),
                Err(e) => if bytes@.len() < HEADER_SIZE {
                    e.is_size()
                } else if u64_at(bytes@, 0) != HEADER_MAGIC {
                    e.is_database("invalid database header magic"@)
                } else {
                    &&& u64_at(bytes@, 8) > 1
                    &&& e.is_database("invalid active commit slot"@)
                },
            },
    {
        if bytes.len() < HEADER_SIZE {
            return Err(Error::size());
        }
        if read_u64(bytes, 0) != HEADER_MAGIC {
            return Err(Error::database("invalid database header magic"));
        }
        let active_slot = read_u64(bytes, 8);
        if active_slot > 1 {
            return Err(Error::database("invalid active commit slot"));
        }
        Ok(
            DbHeader {
                active_second: active_slot == 1,
                page_size: read_u64(bytes, 16),
                first_slot: CommitSlot::read(bytes, 24),
                second_slot: CommitSlot::read(bytes, 64),
            },
        )
    }

    /// The header of a new file, with an empty tree.
    pub fn initial(page_size: u64, root_page_checksum: u128) -> (r: Self)
        ensures
            r.size() == page_size,
            !r.second_is_active(),
            r.first() == (CommitSlot {
                root_page_id: INITIAL_ROOT_PAGE_ID,
                root_page_checksum,
                transaction_id: 0,
                next_page_id: (INITIAL_ROOT_PAGE_ID + 1) as u64,
            }),
            r.second() == r.first(),
    {
        let slot = CommitSlot {
            root_page_id: INITIAL_ROOT_PAGE_ID,
            root_page_checksum,
            transaction_id: 0,
            next_page_id: INITIAL_ROOT_PAGE_ID + 1,
        };
        DbHeader { active_second: false, page_size, first_slot: slot, second_slot: slot }
    }

    /// The first page of the file with this header.
    pub fn encode_page(&self) -> (r: Vec<u8>)
        requires
            HEADER_SIZE <= self.size() <= usize::MAX,
        ensures
            r@.len() == self.size(),
            self.stands_in(r@),
            forall|i: int| HEADER_SIZE <= i < r@.len() ==> r@[i] == 0,
    {
        let mut page: Vec<u8> = vec![0; self.page_size as usize];
        let active_slot: u64 = if self.active_second {
            1
        } else {
            0
        };
        let size = page.len();
        proof {
            lemma_u64_bytes(HEADER_MAGIC);
            lemma_u64_bytes(active_slot);
            lemma_u64_bytes(self.page_size);
        }
        let ghost page0 = page@;
        write_u64(&mut page, 0, HEADER_MAGIC);
        let ghost page1 = page@;
        write_u64(&mut page, 8, active_slot);
        let ghost page2 = page@;
        write_u64(&mut page, 16, self.page_size);
        let ghost page3 = page@;
        self.first_slot.write(&mut page, 24);
        let ghost page4 = page@;
        self.second_slot.write(&mut page, 64);
        proof {
            lemma_splice_u64(page0, 0, HEADER_MAGIC);
            lemma_splice_u64(page1, 8, active_slot);
            lemma_splice_u64(page2, 16, self.page_size);
            lemma_u64_at_same(page1, page@, 0);
            lemma_u64_at_same(page2, page@, 8);
            lemma_u64_at_same(page3, page@, 16);
            lemma_u64_at_same(page4, page@, 24);
            lemma_u128_at_same(page4, page@, 32);
            lemma_u64_at_same(page4, page@, 48);
            lemma_u64_at_same(page4, page@, 56);
        }
        page
    }

    pub fn page_size(&self) -> (r: u64)
        ensures
            r == self.size(),
    {
        self.page_size
    }

    /// The header after one more commit: it takes the place of the commit that does not count, and
    /// is the one that does.
    pub fn with_commit(
        self,
        root_page_id: PageId,
        root_page_checksum: u128,
        transaction_id: TransactionId,
        next_page_id: PageId,
    ) -> (r: Self)
        ensures
            r.size() == self.size(),
            r.second_is_active() == !self.second_is_active(),
            r.active() == (CommitSlot {
                root_page_id,
                root_page_checksum,
                transaction_id,
                next_page_id,
            }),
            r.inactive() == self.active(),
    {
        let slot = CommitSlot { root_page_id, root_page_checksum, transaction_id, next_page_id };
        let mut header = self;
        if header.active_second {
            header.first_slot = slot;
        } else {
            header.second_slot = slot;
        }
        header.switch_to_inactive_slot();
        header
    }

    pub fn active_slot(&self) -> (r: CommitSlot)
        ensures
            r == self.active(),
    {
        if self.active_second {
            self.second_slot
        } else {
            self.first_slot
        }
    }

    pub fn inactive_slot(&self) -> (r: CommitSlot)
        ensures
            r == self.inactive(),
    {
        if self.active_second {
            self.first_slot
        } else {
            self.second_slot
        }
    }

    /// Makes the other commit the one that counts.
    pub fn switch_to_inactive_slot(&mut self)
        ensures
            final(self).size() == old(self).size(),
            final(self).first() == old(self).first(),
            final(self).second() == old(self).second(),
            final(self).second_is_active() == !old(self).second_is_active(),
            *final(self) == old(self).switched(),
    {
        self.active_second = !self.active_second;
    }
}

/// Switching a header changes which commit counts, and nothing else; switching it twice changes
/// nothing.
pub proof fn law_header_switch(header: DbHeader)
    ensures
        header.switched().active() == header.inactive(),
        header.switched().inactive() == header.active(),
        header.switched().size() == header.size(),
        header.switched().switched() == header,
{
}

/// Where the numbers of a header stand in the first page of the file.
pub proof fn law_header_is_laid_out(header: DbHeader, bytes: Seq<u8>)
    requires
        header.stands_in(bytes),
    ensures
        bytes.len() >= 104,
        u64_at(bytes, 0) == HEADER_MAGIC,
        u64_at(bytes, 8) <= 1,
        u64_at(bytes, 16) == header.size(),
        ({
            let (active, inactive): (int, int) = if u64_at(bytes, 8) == 1 {
                (64, 24)
            } else {
                (24, 64)
            };
            &&& header.second_is_active() <==> u64_at(bytes, 8) == 1
            &&& u64_at(bytes, active) == header.active().root_page_id
            &&& u128_at(bytes, active + 8) == header.active().root_page_checksum
            &&& u64_at(bytes, active + 24) == header.active().transaction_id
            &&& u64_at(bytes, active + 32) == header.active().next_page_id
            &&& u64_at(bytes, inactive) == header.inactive().root_page_id
            &&& u128_at(bytes, inactive + 8) == header.inactive().root_page_checksum
            &&& u64_at(bytes, inactive + 24) == header.inactive().transaction_id
            &&& u64_at(bytes, inactive + 32) == header.inactive().next_page_id
        }),
{
}

/// A header that was written is read back as it was: bytes hold one header at most.
pub proof fn law_header_round_trip(a: DbHeader, b: DbHeader, bytes: Seq<u8>)
    requires
        a.stands_in(bytes),
        b.stands_in(bytes),
    ensures
        a == b,
{
}

} // verus!
