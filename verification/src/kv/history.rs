//! What transactions promise over a whole run of a database: readers come and go, one writer after
//! another stores pairs and commits or gives up, and pages are written one at a time.

use crate::kv::btree::tree::{depth_after, insert_effect, insert_stores};
use crate::kv::btree::tree_insert::seen;
use crate::kv::btree::tree_model::{
    agree_on, changed_only, lemma_tree_frame, tree_get, tree_ok, tree_pages, updated, within, Pages,
};
use crate::kv::btree::tree_path::{clean_list, path_ok, path_read_from};
use crate::kv::btree::tree_search::search_at;
use crate::kv::db::{freed_entries, Database};
use crate::kv::pages::header::{CommitSlot, DbHeader};
use crate::kv::pages::page::Page;
use crate::kv::pages::page_allocator::{lemma_retains_fewer, oldest_or_max};
use crate::kv::pages::page_manager::PageManager;
use crate::kv::pages::{PageId, HEADER_PAGE_ID};
use crate::kv::snapshots::{
    commit_pages, committed, law_commit_keeps_readable, law_commit_publishes,
    law_commit_survives_partial_writes, law_insert_keeps_readable, law_insert_keeps_writing,
    law_read_begins, law_write_begins, readable, writing,
};
use crate::kv::transactions::dirty_pages::DirtyPageSlot;
use crate::kv::transactions::read_tracker::{with_reader, without_reader};
use crate::kv::transactions::read_transaction::ReadTransaction;
use crate::kv::transactions::write_transaction::{path_copied, WriteTransaction};
use crate::kv::transactions::TransactionId;
use vstd::prelude::*;

verus! {

/// A database and its file at one moment.
pub ghost struct Moment {
    pub db: Database,
    /// What the file holds.
    pub file: Pages,
    /// The depth of the tree of the last commit.
    pub depth: nat,
    /// The transaction that changes the tree, if there is one.
    pub writer: Option<WriteTransaction>,
    /// The depth of its tree.
    pub writer_depth: nat,
}

/// What happens between two moments.
pub ghost enum Step {
    /// A reader begins.
    BeginRead,
    /// A reader of the commit with this number ends.
    EndRead { reader: TransactionId },
    /// A writer begins.
    BeginWrite,
    /// The writer stores a pair, given the path to its leaf.
    Insert {
        oldest: Option<TransactionId>,
        path: Seq<Page>,
        key: Seq<u8>,
        value: Seq<u8>,
    },
    /// The writer fails to store a pair, after it has copied the pages of a path.
    Fail { oldest: Option<TransactionId>, path: Seq<Page> },
    /// The writer gives up.
    Drop,
    /// A page is written: one of the writer's, or that of the header.
    Write { page_id: PageId, bytes: Seq<u8> },
    /// The writer's commit is published, now that its pages and its header are written.
    Commit { header: DbHeader },
    /// Pages are read, or the file grows.
    Other,
}

impl Moment {
    /// The pages of the database.
    pub open spec fn pages(self) -> PageManager {
        self.db.page_manager
    }

    /// The last commit.
    pub open spec fn slot(self) -> CommitSlot {
        self.db.commit.header().active()
    }

    /// The numbers of readers of the commits that are being read.
    pub open spec fn readers(self) -> Map<TransactionId, u64> {
        self.db.read_tracker.readers()
    }

    /// The value under `key` in the last commit.
    pub open spec fn get(self, key: Seq<u8>) -> Option<Seq<u8>> {
        tree_get(self.file, self.slot().root_page_id, self.depth, key)
    }

    /// The value under `key` as the writer sees it.
    pub open spec fn draft(self, key: Seq<u8>) -> Option<Seq<u8>> {
        tree_get(
            seen(self.file, self.writer->0.slots()),
            self.writer->0.root(),
            self.writer_depth,
            key,
        )
    }

    /// Whether a reader that begins now finds this value under `key`.
    pub open spec fn answers(self, key: Seq<u8>, value: Option<Seq<u8>>) -> bool {
        search_at(
            self.file,
            self.slot().root_page_id,
            self.depth,
            key,
            self.pages().io().size() as nat,
            value,
        )
    }

    /// Whether the file holds the last commit, the cache shows what the file holds, and the writer
    /// works on pages of its own.
    pub open spec fn holds(self) -> bool {
        &&& self.db.inv()
        &&& committed(self.pages(), self.slot(), self.file, self.depth)
        &&& self.pages().io().reflects(self.file)
        &&& self.writer matches Some(writer) ==> if writer.is_failed() {
            writer.slots().dom().disjoint(
                commit_pages(self.slot(), self.file, self.depth).insert(HEADER_PAGE_ID),
            )
        } else {
            writing(
                self.pages(),
                self.slot(),
                writer,
                self.file,
                self.depth,
                self.writer_depth,
            )
        }
    }

    /// Whether a commit that is being read is all there, and neither its pages will be handed out nor
    /// the writer works on them.
    pub open spec fn serves(self, root: PageId, reader: TransactionId, depth: nat) -> bool {
        &&& readable(self.pages(), root, reader, self.file, depth)
        &&& reader <= self.slot().transaction_id
        &&& !tree_pages(self.file, root, depth).contains(HEADER_PAGE_ID)
        &&& self.writer matches Some(writer) ==> writer.slots().dom().disjoint(
            tree_pages(self.file, root, depth),
        )
    }
}

/// Whether `oldest` is the oldest commit that is being read.
pub open spec fn is_oldest(
    readers: Map<TransactionId, u64>,
    oldest: Option<TransactionId>,
) -> bool {
    match oldest {
        Some(oldest) => {
            &&& readers.contains_key(oldest)
            &&& forall|t: TransactionId| #[trigger] readers.contains_key(t) ==> oldest <= t
        },
        None => readers == Map::<TransactionId, u64>::empty(),
    }
}

/// Whether the commits and the readers are as they were.
pub open spec fn same_commits(a: Moment, b: Moment) -> bool {
    &&& b.db.commit == a.db.commit
    &&& b.db.read_tracker == a.db.read_tracker
    &&& b.depth == a.depth
}

/// Whether the file is as it was, and the cache shows what it holds.
pub open spec fn same_file(a: Moment, b: Moment) -> bool {
    &&& b.file == a.file
    &&& b.pages().io().size() == a.pages().io().size()
    &&& b.pages().io().reflects(b.file)
}

/// Whether a step leads from one moment to the next.
pub open spec fn leads(a: Moment, step: Step, b: Moment) -> bool {
    match step {
        Step::BeginRead => {
            let id = a.slot().transaction_id;
            &&& a.readers().contains_key(id) ==> a.readers()[id] < u64::MAX
            &&& b == (Moment { db: b.db, ..a })
            &&& b.db.inv()
            &&& b.db.page_manager == a.db.page_manager
            &&& b.db.commit == a.db.commit
            &&& b.readers() == with_reader(a.readers(), id)
        },
        Step::EndRead { reader } => {
            &&& b == (Moment { db: b.db, ..a })
            &&& b.db.inv()
            &&& b.db.page_manager == a.db.page_manager
            &&& b.db.commit == a.db.commit
            &&& b.readers() == without_reader(a.readers(), reader)
        },
        Step::BeginWrite => {
            &&& a.writer is None
            &&& a.slot().transaction_id < u64::MAX
            &&& b == (Moment { writer: b.writer, writer_depth: a.depth, ..a })
            &&& b.writer matches Some(writer) && {
                &&& writer.id() == a.slot().transaction_id + 1
                &&& writer.root() == a.slot().root_page_id
                &&& writer.root_checksum() == a.slot().root_page_checksum
                &&& writer.slots() == Map::<PageId, DirtyPageSlot>::empty()
                &&& writer.freed() == Seq::<PageId>::empty()
                &&& !writer.is_failed()
                &&& writer.works_on(a.pages())
            }
        },
        Step::Insert { oldest, path, key, value } => {
            &&& a.writer matches Some(before) && b.writer matches Some(after) && {
                &&& !before.is_failed()
                &&& is_oldest(a.readers(), oldest)
                &&& path_ok(path, key, a.pages().io().size() as nat)
                &&& path_read_from(path, 0, before.slots(), a.file)
                &&& insert_effect(before, after, a.pages(), b.pages(), oldest, path, key, value)
                &&& after.settled()
                &&& insert_stores(
                    a.file,
                    before,
                    after,
                    a.pages(),
                    path,
                    key,
                    value,
                    a.writer_depth,
                )
            }
            &&& same_commits(a, b)
            &&& same_file(a, b)
            &&& b.writer_depth == depth_after(path, key, value, a.writer_depth)
        },
        Step::Fail { oldest, path } => {
            &&& a.writer matches Some(before) && b.writer matches Some(after) && {
                &&& after.is_failed()
                &&& is_oldest(a.readers(), oldest)
                &&& path_copied(
                    before,
                    after,
                    a.pages().allocator(),
                    b.pages().allocator(),
                    oldest,
                    path,
                )
            }
            &&& same_commits(a, b)
            &&& same_file(a, b)
        },
        Step::Drop => b == (Moment { writer: None, ..a }),
        Step::Write { page_id, bytes } => {
            &&& a.writer matches Some(writer) && {
                &&& !writer.is_failed()
                &&& page_id == HEADER_PAGE_ID || writer.slots().contains_key(page_id)
            }
            &&& b.writer == a.writer
            &&& b.writer_depth == a.writer_depth
            &&& same_commits(a, b)
            &&& b.file == a.file.insert(page_id, bytes)
            &&& b.pages().allocator() == a.pages().allocator()
            &&& b.pages().io().size() == a.pages().io().size()
            &&& b.pages().io().reflects(b.file)
        },
        Step::Commit { header } => {
            &&& a.writer matches Some(writer) && {
                &&& !writer.is_failed()
                &&& seen(a.file, writer.slots()) == a.file
                &&& header.active() == (CommitSlot {
                    root_page_id: writer.root(),
                    root_page_checksum: writer.root_checksum(),
                    transaction_id: writer.id(),
                    next_page_id: a.pages().allocator().next(),
                })
                &&& b.pages().allocator().freed() == a.pages().allocator().freed() + freed_entries(
                    writer.freed(),
                    writer.id(),
                )
            }
            &&& a.file.contains_key(HEADER_PAGE_ID)
            &&& header.stands_in(a.file[HEADER_PAGE_ID])
            &&& header.size() == a.db.commit.header().size()
            &&& header.inactive() == a.slot()
            &&& b.writer is None
            &&& b.db.commit.header() == header
            &&& b.db.commit.inv()
            &&& b.db.read_tracker == a.db.read_tracker
            &&& b.pages().allocator().next() == a.pages().allocator().next()
            &&& b.pages().io() == a.pages().io()
            &&& b.file == a.file
            &&& b.depth == a.writer_depth
        },
        Step::Other => {
            &&& same_commits(a, b)
            &&& same_file(a, b)
            &&& b.writer == a.writer
            &&& b.writer_depth == a.writer_depth
            &&& b.pages().allocator().next() == a.pages().allocator().next()
            &&& b.pages().allocator().freed() == a.pages().allocator().freed()
        },
    }
}

/// Whether a run leads from each moment to the next.
pub open spec fn is_run(moments: Seq<Moment>, steps: Seq<Step>) -> bool {
    &&& moments.len() == steps.len() + 1
    &&& moments[0].holds()
    &&& forall|i: int| 0 <= i < steps.len() ==> #[trigger] leads_on(moments, steps, i)
}

/// Whether step `i` of a run leads to the moment after it.
pub open spec fn leads_on(moments: Seq<Moment>, steps: Seq<Step>, i: int) -> bool {
    leads(moments[i], steps[i], moments[i + 1])
}

/// The value under `key` after the pairs of these steps were stored, one over the other: that of the
/// last pair with this key, else the one that was there before.
pub open spec fn stored(steps: Seq<Step>, before: Option<Seq<u8>>, key: Seq<u8>) -> Option<Seq<u8>>
    decreases steps.len(),
{
    if steps.len() == 0 {
        before
    } else {
        match steps.last() {
            Step::Insert { key: other, value, .. } if other == key => Some(value),
            _ => stored(steps.drop_last(), before, key),
        }
    }
}

/// Where a commit is all there, a reader that begins now finds what it holds.
proof fn lemma_answers(m: Moment, key: Seq<u8>)
    requires
        m.holds(),
    ensures
        m.answers(key, m.get(key)),
{
    let slot = m.slot();
    assert(tree_ok(
        m.file,
        slot.root_page_id,
        slot.root_page_checksum,
        m.depth,
        None,
        None,
        m.pages().io().size() as nat,
    ));
    assert(within(key, None, None));
}

/// Writing a page of its own, or the header, changes neither the last commit nor what the writer sees.
proof fn lemma_write(a: Moment, b: Moment, page_id: PageId, bytes: Seq<u8>)
    requires
        a.holds(),
        leads(a, Step::Write { page_id, bytes }, b),
    ensures
        b.holds(),
        forall|key: Seq<u8>| #[trigger] b.get(key) == a.get(key),
        forall|key: Seq<u8>| #[trigger] b.draft(key) == a.draft(key),
{
    let writer = a.writer->0;
    let slot = a.slot();
    let size = a.pages().io().size() as nat;
    let own = writer.slots().dom().insert(HEADER_PAGE_ID);
    let old_pages = commit_pages(slot, a.file, a.depth);
    let tree = seen(a.file, writer.slots());
    let tree_after = seen(b.file, writer.slots());
    let new_pages = tree_pages(tree, writer.root(), a.writer_depth);
    assert(own.contains(page_id));
    assert(changed_only(a.file, b.file, own)) by {
        assert forall|p: PageId| !(#[trigger] own.contains(p)) && a.file.contains_key(
            p,
        ) implies b.file.contains_key(p) && b.file[p] == a.file[p] by {
            assert(p != page_id);
        }
    }
    law_commit_survives_partial_writes(
        a.pages(),
        slot,
        writer,
        a.file,
        b.file,
        a.depth,
        a.writer_depth,
    );
    assert(agree_on(a.file, b.file, old_pages)) by {
        assert forall|p: PageId| #[trigger] old_pages.contains(p) && a.file.contains_key(
            p,
        ) implies b.file.contains_key(p) && b.file[p] == a.file[p] by {
            assert(old_pages.insert(HEADER_PAGE_ID).contains(p));
            assert(!writer.slots().dom().contains(p));
        }
    }
    lemma_tree_frame(
        a.file,
        b.file,
        slot.root_page_id,
        slot.root_page_checksum,
        a.depth,
        None,
        None,
        size,
    );
    assert(agree_on(tree, tree_after, new_pages)) by {
        assert forall|p: PageId| #[trigger] new_pages.contains(p) && tree.contains_key(
            p,
        ) implies tree_after.contains_key(p) && tree_after[p] == tree[p] by {
            assert(old_pages.union(writer.slots().dom()).contains(p));
            assert(old_pages.insert(HEADER_PAGE_ID).contains(HEADER_PAGE_ID));
            assert(p != HEADER_PAGE_ID);
            if writer.slots().contains_key(p) {
                assert(writer.slots()[p] is Available);
            } else {
                assert(p != page_id);
            }
        }
    }
    lemma_tree_frame(
        tree,
        tree_after,
        writer.root(),
        writer.root_checksum(),
        a.writer_depth,
        None,
        None,
        size,
    );
}

/// Publishing a commit makes what the writer saw what readers find.
proof fn lemma_commit(a: Moment, b: Moment, header: DbHeader)
    requires
        a.holds(),
        leads(a, Step::Commit { header }, b),
    ensures
        b.holds(),
        forall|key: Seq<u8>| #[trigger] b.get(key) == a.draft(key),
{
    let writer = a.writer->0;
    let written = a.file[HEADER_PAGE_ID];
    assert(a.file.insert(HEADER_PAGE_ID, written) =~= a.file);
    law_commit_publishes(
        a.pages(),
        b.pages(),
        a.slot(),
        b.slot(),
        writer,
        a.file,
        written,
        a.depth,
        a.writer_depth,
    );
}

/// Copying the pages of a path takes none of the last commit's.
proof fn lemma_fail(a: Moment, b: Moment, oldest: Option<TransactionId>, path: Seq<Page>)
    requires
        a.holds(),
        leads(a, Step::Fail { oldest, path }, b),
    ensures
        b.holds(),
        forall|key: Seq<u8>| #[trigger] b.get(key) == a.get(key),
{
    let all = commit_pages(a.slot(), a.file, a.depth).insert(HEADER_PAGE_ID);
    lemma_fresh(a, b, oldest, path, all, u64::MAX);
}

/// The pages that are taken for copies are none of those that are retained, which still are.
proof fn lemma_fresh(
    a: Moment,
    b: Moment,
    oldest: Option<TransactionId>,
    path: Seq<Page>,
    kept: Set<PageId>,
    reader: TransactionId,
)
    requires
        leads(a, Step::Fail { oldest, path }, b),
        a.pages().allocator().retains(kept, reader),
        oldest_or_max(oldest) <= reader,
        a.writer->0.slots().dom().disjoint(kept),
    ensures
        b.pages().allocator().inv(),
        b.pages().allocator().retains(kept, reader),
        b.writer->0.slots().dom().disjoint(kept),
{
    let slots = a.writer->0.slots();
    let count = clean_list(path, 0, slots).len();
    let fresh = a.pages().allocator().first_pages(count, oldest);
    assert(fresh.disjoint(kept));
    assert(b.pages().allocator().retains(kept.union(fresh), reader));
    lemma_retains_fewer(b.pages().allocator(), kept.union(fresh), kept, reader);
    assert(b.writer->0.slots().dom() == slots.dom().union(fresh));
}

/// Every step keeps what holds of a moment. The last commit is as it was, unless the step publishes
/// another: that is then what the writer saw.
pub proof fn law_steps_keep_the_commit(a: Moment, step: Step, b: Moment)
    requires
        a.holds(),
        leads(a, step, b),
    ensures
        b.holds(),
        forall|key: Seq<u8>| #[trigger]
            b.get(key) == if step is Commit {
                a.draft(key)
            } else {
                a.get(key)
            },
{
    match step {
        Step::BeginWrite => {
            law_write_begins(a.pages(), a.slot(), b.writer->0, a.file, a.depth);
        },
        Step::Insert { oldest, path, key, value } => {
            law_insert_keeps_writing(
                a.pages(),
                b.pages(),
                a.slot(),
                a.writer->0,
                b.writer->0,
                oldest,
                path,
                key,
                value,
                a.file,
                a.depth,
                a.writer_depth,
            );
        },
        Step::Fail { oldest, path } => {
            lemma_fail(a, b, oldest, path);
        },
        Step::Write { page_id, bytes } => {
            lemma_write(a, b, page_id, bytes);
        },
        Step::Commit { header } => {
            lemma_commit(a, b, header);
        },
        _ => {},
    }
}

/// The writer sees what it began with and what it has stored since.
proof fn lemma_draft(a: Moment, step: Step, b: Moment)
    requires
        a.holds(),
        leads(a, step, b),
        b.writer is Some,
        !b.writer->0.is_failed(),
    ensures
        forall|key: Seq<u8>| #[trigger]
            b.draft(key) == match step {
                Step::BeginWrite => a.get(key),
                Step::Insert { key: other, value, .. } if other == key => Some(value),
                _ => a.draft(key),
            },
{
    match step {
        Step::BeginWrite => {
            law_write_begins(a.pages(), a.slot(), b.writer->0, a.file, a.depth);
        },
        Step::Insert { oldest, path, key, value } => {
            law_insert_keeps_writing(
                a.pages(),
                b.pages(),
                a.slot(),
                a.writer->0,
                b.writer->0,
                oldest,
                path,
                key,
                value,
                a.file,
                a.depth,
                a.writer_depth,
            );
            assert forall|other: Seq<u8>| #[trigger] b.draft(other) == if key == other {
                Some(value)
            } else {
                a.draft(other)
            } by {
                assert(updated(b.draft(other), a.draft(other), other, key, value));
            }
        },
        Step::Write { page_id, bytes } => {
            lemma_write(a, b, page_id, bytes);
        },
        _ => {},
    }
}

/// A step takes nothing from a reader while it is known of.
proof fn lemma_serves(
    a: Moment,
    step: Step,
    b: Moment,
    root: PageId,
    reader: TransactionId,
    depth: nat,
)
    requires
        a.holds(),
        leads(a, step, b),
        a.serves(root, reader, depth),
        a.readers().contains_key(reader),
    ensures
        b.serves(root, reader, depth),
        forall|key: Seq<u8>| #[trigger]
            tree_get(b.file, root, depth, key) == tree_get(a.file, root, depth, key),
{
    let all = tree_pages(a.file, root, depth);
    let size = a.pages().io().size() as nat;
    match step {
        Step::Insert { oldest, path, key, value } => {
            law_insert_keeps_readable(
                a.pages(),
                b.pages(),
                a.writer->0,
                b.writer->0,
                oldest,
                path,
                key,
                value,
                root,
                reader,
                a.file,
                depth,
            );
        },
        Step::Fail { oldest, path } => {
            lemma_fresh(a, b, oldest, path, all, reader);
            let checksum = choose|checksum: u128| #[trigger]
                tree_ok(a.file, root, checksum, depth, None, None, size);
            assert(tree_ok(b.file, root, checksum, depth, None, None, size));
        },
        Step::Write { page_id, bytes } => {
            let checksum = choose|checksum: u128| #[trigger]
                tree_ok(a.file, root, checksum, depth, None, None, size);
            assert(agree_on(a.file, b.file, all)) by {
                assert forall|p: PageId| #[trigger] all.contains(p) && a.file.contains_key(
                    p,
                ) implies b.file.contains_key(p) && b.file[p] == a.file[p] by {
                    assert(!a.writer->0.slots().dom().contains(p));
                }
            }
            lemma_tree_frame(a.file, b.file, root, checksum, depth, None, None, size);
        },
        Step::Commit { header } => {
            let written = a.file[HEADER_PAGE_ID];
            assert(a.file.insert(HEADER_PAGE_ID, written) =~= a.file);
            law_commit_keeps_readable(
                a.pages(),
                b.pages(),
                a.slot(),
                a.writer->0,
                root,
                reader,
                a.file,
                written,
                a.depth,
                a.writer_depth,
                depth,
            );
        },
        _ => {
            let checksum = choose|checksum: u128| #[trigger]
                tree_ok(a.file, root, checksum, depth, None, None, size);
            assert(tree_ok(b.file, root, checksum, depth, None, None, size));
        },
    }
}

/// What holds at the beginning of a run holds all along.
pub proof fn law_runs_keep_holding(moments: Seq<Moment>, steps: Seq<Step>, n: int)
    requires
        is_run(moments, steps),
        0 <= n <= steps.len(),
    ensures
        moments[n].holds(),
    decreases n,
{
    if n > 0 {
        law_runs_keep_holding(moments, steps, n - 1);
        assert(leads_on(moments, steps, n - 1));
        law_steps_keep_the_commit(moments[n - 1], steps[n - 1], moments[n]);
    }
}

proof fn lemma_run_serves(
    moments: Seq<Moment>,
    steps: Seq<Step>,
    reader: ReadTransaction,
    n: int,
)
    requires
        is_run(moments, steps),
        0 <= n <= steps.len(),
        reader.root() == moments[0].slot().root_page_id,
        reader.id() == moments[0].slot().transaction_id,
        forall|i: int|
            0 <= i < n ==> (#[trigger] moments[i]).readers().contains_key(reader.id()),
    ensures
        moments[n].serves(reader.root(), reader.id(), moments[0].depth),
        forall|key: Seq<u8>|
            tree_get(moments[n].file, reader.root(), moments[0].depth, key)
                == #[trigger] moments[0].get(key),
    decreases n,
{
    let first = moments[0];
    if n == 0 {
        law_read_begins(first.pages(), first.slot(), reader.id(), first.file, first.depth);
        if first.writer is Some {
            let pages = commit_pages(first.slot(), first.file, first.depth);
            assert(pages.subset_of(pages.insert(HEADER_PAGE_ID)));
        }
    } else {
        lemma_run_serves(moments, steps, reader, n - 1);
        law_runs_keep_holding(moments, steps, n - 1);
        assert(leads_on(moments, steps, n - 1));
        lemma_serves(
            moments[n - 1],
            steps[n - 1],
            moments[n],
            reader.root(),
            reader.id(),
            first.depth,
        );
        assert forall|key: Seq<u8>|
            tree_get(moments[n].file, reader.root(), first.depth, key)
                == #[trigger] first.get(key) by {
            assert(tree_get(moments[n].file, reader.root(), first.depth, key) == tree_get(
                moments[n - 1].file,
                reader.root(),
                first.depth,
                key,
            ));
        }
    }
}

/// A reader keeps its snapshot: as long as it is known of, whatever is stored, committed or given up
/// meanwhile, it finds under every key what was committed when it began, and none of the pages that it
/// can reach will be handed out.
pub proof fn law_reader_keeps_its_snapshot(
    moments: Seq<Moment>,
    steps: Seq<Step>,
    reader: ReadTransaction,
)
    requires
        is_run(moments, steps),
        reader.root() == moments[0].slot().root_page_id,
        reader.id() == moments[0].slot().transaction_id,
        forall|i: int|
            0 <= i < steps.len() ==> (#[trigger] moments[i]).readers().contains_key(reader.id()),
    ensures
        ({
            let last = moments.last();
            let pages = tree_pages(last.file, reader.root(), moments[0].depth);
            &&& last.pages().io().reflects(last.file)
            &&& last.pages().allocator().retains(pages, reader.id())
            &&& forall|key: Seq<u8>|
                search_at(
                    last.file,
                    reader.root(),
                    moments[0].depth,
                    key,
                    last.pages().io().size() as nat,
                    #[trigger] moments[0].get(key),
                )
        }),
{
    let n = steps.len() as int;
    let last = moments[n];
    let size = last.pages().io().size() as nat;
    let depth = moments[0].depth;
    lemma_run_serves(moments, steps, reader, n);
    law_runs_keep_holding(moments, steps, n);
    let checksum = choose|checksum: u128| #[trigger]
        tree_ok(last.file, reader.root(), checksum, depth, None, None, size);
    assert forall|key: Seq<u8>|
        search_at(last.file, reader.root(), depth, key, size, #[trigger] moments[0].get(key)) by {
        assert(tree_ok(last.file, reader.root(), checksum, depth, None, None, size));
        assert(within(key, None, None));
    }
}

/// Until a commit is published, readers that begin find what was committed before, and so they do after
/// a writer has given up or failed.
pub proof fn law_nothing_is_seen_before_the_commit(moments: Seq<Moment>, steps: Seq<Step>, n: int)
    requires
        is_run(moments, steps),
        0 <= n <= steps.len(),
        forall|i: int| 0 <= i < n ==> !((#[trigger] steps[i]) is Commit),
    ensures
        forall|key: Seq<u8>| #[trigger] moments[n].get(key) == moments[0].get(key),
        forall|key: Seq<u8>| moments[n].answers(key, #[trigger] moments[0].get(key)),
    decreases n,
{
    law_runs_keep_holding(moments, steps, n);
    if n > 0 {
        law_nothing_is_seen_before_the_commit(moments, steps, n - 1);
        law_runs_keep_holding(moments, steps, n - 1);
        assert(leads_on(moments, steps, n - 1));
        law_steps_keep_the_commit(moments[n - 1], steps[n - 1], moments[n]);
        assert forall|key: Seq<u8>| #[trigger] moments[n].get(key) == moments[0].get(key) by {
            assert(moments[n - 1].get(key) == moments[0].get(key));
        }
    }
    assert forall|key: Seq<u8>| moments[n].answers(key, #[trigger] moments[0].get(key)) by {
        lemma_answers(moments[n], key);
        assert(moments[n].get(key) == moments[0].get(key));
    }
}

proof fn lemma_run_draft(moments: Seq<Moment>, steps: Seq<Step>, n: int)
    requires
        is_run(moments, steps),
        1 <= n <= steps.len(),
        steps[0] is BeginWrite,
        forall|i: int|
            1 <= i < n ==> !((#[trigger] steps[i]) is Commit) && !(steps[i] is Drop),
    ensures
        moments[n].writer is Some,
        !moments[n].writer->0.is_failed() ==> forall|key: Seq<u8>| #[trigger]
            moments[n].draft(key) == stored(steps.take(n), moments[0].get(key), key),
    decreases n,
{
    let a = moments[n - 1];
    let b = moments[n];
    let step = steps[n - 1];
    law_runs_keep_holding(moments, steps, n - 1);
    assert(leads_on(moments, steps, n - 1));
    assert(steps.take(n).drop_last() =~= steps.take(n - 1));
    assert(steps.take(n).last() == step);
    if n > 1 {
        lemma_run_draft(moments, steps, n - 1);
    }
    if b.writer is Some && !b.writer->0.is_failed() {
        lemma_draft(a, step, b);
        assert forall|key: Seq<u8>| #[trigger] b.draft(key) == stored(
            steps.take(n),
            moments[0].get(key),
            key,
        ) by {
            if n == 1 {
                assert(steps.take(0) =~= Seq::<Step>::empty());
                assert(b.draft(key) == a.get(key));
            } else {
                assert(a.draft(key) == stored(steps.take(n - 1), moments[0].get(key), key));
            }
        }
    }
}

/// A commit makes all that the writer stored visible at once: readers that begin before it is published
/// find nothing of it, and those that begin then find under every key the value that was stored last,
/// or what was committed before if none was.
pub proof fn law_commit_shows_all_that_was_stored(moments: Seq<Moment>, steps: Seq<Step>)
    requires
        is_run(moments, steps),
        steps.len() >= 2,
        steps[0] is BeginWrite,
        forall|i: int|
            1 <= i < steps.len() - 1 ==> !((#[trigger] steps[i]) is Commit) && !(steps[i] is Drop),
        steps.last() is Commit,
    ensures
        forall|i: int, key: Seq<u8>|
            0 <= i < steps.len() ==> #[trigger] moments[i].answers(key, moments[0].get(key)),
        forall|key: Seq<u8>| #[trigger]
            moments.last().answers(key, stored(steps, moments[0].get(key), key)),
{
    let n = steps.len() as int;
    let a = moments[n - 1];
    let b = moments[n];
    assert forall|i: int, key: Seq<u8>| 0 <= i < n implies #[trigger] moments[i].answers(
        key,
        moments[0].get(key),
    ) by {
        law_nothing_is_seen_before_the_commit(moments, steps, i);
        assert(moments[i].get(key) == moments[0].get(key));
        law_runs_keep_holding(moments, steps, i);
        lemma_answers(moments[i], key);
    }
    law_runs_keep_holding(moments, steps, n - 1);
    law_runs_keep_holding(moments, steps, n);
    lemma_run_draft(moments, steps, n - 1);
    assert(leads_on(moments, steps, n - 1));
    law_steps_keep_the_commit(a, steps[n - 1], b);
    assert(steps.drop_last() =~= steps.take(n - 1));
    assert forall|key: Seq<u8>| #[trigger] b.answers(
        key,
        stored(steps, moments[0].get(key), key),
    ) by {
        lemma_answers(b, key);
        assert(b.get(key) == a.draft(key));
        assert(a.draft(key) == stored(steps.take(n - 1), moments[0].get(key), key));
    }
}

} // verus!
