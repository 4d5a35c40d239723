//! What transactions promise each other: a commit is seen as a whole or not at all, whatever happens
//! while it is written, and a reader sees one commit, whatever is committed while it reads.

use crate::kv::btree::tree::{depth_after, insert_effect, insert_stores};
use crate::kv::btree::tree_insert::seen;
use crate::kv::btree::tree_model::{
    agree_on, changed_only, lemma_tree_frame, tree_get, tree_ok, tree_pages, updated, within, Pages,
};
use crate::kv::btree::tree_path::{clean_ids, clean_list, path_ok, path_read_from};
use crate::kv::btree::tree_search::search_at;
use crate::kv::btree::tree_update::lemma_agree_outside;
use crate::kv::btree::tree_verify::{intact, law_tree_is_intact};
use crate::kv::db::{freed_entries, is_new_file, NewFile};
use crate::kv::pages::header::CommitSlot;
use crate::kv::pages::page::Page;
use crate::kv::pages::page_allocator::{
    lemma_retains_fewer, oldest_or_max, FreedPage, PageAllocator,
};
use crate::kv::pages::page_manager::PageManager;
use crate::kv::pages::{PageId, HEADER_PAGE_ID};
use crate::kv::transactions::dirty_pages::DirtyPageSlot;
use crate::kv::transactions::write_transaction::WriteTransaction;
use crate::kv::transactions::TransactionId;
use vstd::prelude::*;

verus! {

/// The tree that a commit published.
pub open spec fn commit_pages(slot: CommitSlot, file: Pages, depth: nat) -> Set<PageId> {
    tree_pages(file, slot.root_page_id, depth)
}

/// Whether a file holds the tree of a commit, whose pages are among those that were in use then,
/// and none of these pages, nor that of the header, will be handed out.
pub open spec fn committed(pages: PageManager, slot: CommitSlot, file: Pages, depth: nat) -> bool {
    &&& tree_ok(
        file,
        slot.root_page_id,
        slot.root_page_checksum,
        depth,
        None,
        None,
        pages.io().size() as nat,
    )
    &&& !commit_pages(slot, file, depth).contains(HEADER_PAGE_ID)
    &&& forall|p: PageId| #[trigger]
        commit_pages(slot, file, depth).contains(p) ==> p < slot.next_page_id
    &&& pages.allocator().inv()
    &&& pages.allocator().retains(
        commit_pages(slot, file, depth).insert(HEADER_PAGE_ID),
        u64::MAX,
    )
}

/// Whether a transaction is under way on top of a commit: it sees a tree, whose pages are those of
/// the commit or its own; its own pages are none of the commit's; and those that it has freed are
/// pages of the commit that it does not use any more.
pub open spec fn writing(
    pages: PageManager,
    slot: CommitSlot,
    transaction: WriteTransaction,
    file: Pages,
    depth: nat,
    new_depth: nat,
) -> bool {
    let old_pages = commit_pages(slot, file, depth);
    let tree = seen(file, transaction.slots());
    let new_pages = tree_pages(tree, transaction.root(), new_depth);
    &&& committed(pages, slot, file, depth)
    &&& transaction.works_on(pages)
    &&& transaction.settled()
    &&& !transaction.is_failed()
    &&& transaction.id() == slot.transaction_id + 1
    &&& tree_ok(
        tree,
        transaction.root(),
        transaction.root_checksum(),
        new_depth,
        None,
        None,
        pages.io().size() as nat,
    )
    &&& pages.allocator().retains(new_pages, u64::MAX)
    &&& transaction.slots().dom().disjoint(old_pages.insert(HEADER_PAGE_ID))
    &&& new_pages.subset_of(old_pages.union(transaction.slots().dom()))
    &&& transaction.freed().no_duplicates()
    &&& forall|i: int|
        0 <= i < transaction.freed().len() ==> old_pages.contains(
            #[trigger] transaction.freed()[i],
        ) && !new_pages.contains(transaction.freed()[i])
}

/// A new file holds the empty tree.
pub proof fn law_new_file_is_committed(
    pages: PageManager,
    new_file: NewFile,
    page_size: u64,
    file: Pages,
)
    requires
        is_new_file(new_file, page_size),
        pages.io().size() == page_size,
        pages.allocator().freed() == Seq::<FreedPage>::empty(),
        pages.allocator().next() == new_file.page_count,
        pages.allocator().inv(),
        file.contains_key(new_file.root_page.page_id()),
        file[new_file.root_page.page_id()] == new_file.root_page.bytes(),
    ensures
        committed(pages, new_file.header.active(), file, 0),
        forall|key: Seq<u8>| #[trigger]
            tree_get(file, new_file.header.active().root_page_id, 0, key) is None,
{
    let slot = new_file.header.active();
    assert(commit_pages(slot, file, 0) =~= Set::empty().insert(slot.root_page_id));
}

/// A transaction begins with the tree of the last commit.
pub proof fn law_write_begins(
    pages: PageManager,
    slot: CommitSlot,
    transaction: WriteTransaction,
    file: Pages,
    depth: nat,
)
    requires
        committed(pages, slot, file, depth),
        transaction.id() == slot.transaction_id + 1,
        transaction.root() == slot.root_page_id,
        transaction.root_checksum() == slot.root_page_checksum,
        transaction.slots() == Map::<PageId, DirtyPageSlot>::empty(),
        transaction.freed() == Seq::<PageId>::empty(),
        !transaction.is_failed(),
        transaction.works_on(pages),
    ensures
        writing(pages, slot, transaction, file, depth, depth),
        seen(file, transaction.slots()) == file,
{
    assert(seen(file, transaction.slots()) =~= file);
    lemma_retains_fewer(
        pages.allocator(),
        commit_pages(slot, file, depth).insert(HEADER_PAGE_ID),
        commit_pages(slot, file, depth),
        u64::MAX,
    );
}

/// The pages that a path was copied from are distinct, and are those that had no copies.
proof fn lemma_clean_list(
    path: Seq<Page>,
    level: int,
    slots: Map<PageId, DirtyPageSlot>,
)
    requires
        0 <= level,
        forall|i: int, j: int|
            0 <= i < j < path.len() ==> (#[trigger] path[i]).page_id() != (
            #[trigger] path[j]).page_id(),
    ensures
        clean_list(path, level, slots).no_duplicates(),
        forall|k: int|
            0 <= k < clean_list(path, level, slots).len() ==> clean_ids(
                path,
                level,
                slots,
            ).contains(#[trigger] clean_list(path, level, slots)[k]),
    decreases path.len() - level,
{
    if level < path.len() {
        lemma_clean_list(path, level + 1, slots);
        let rest = clean_list(path, level + 1, slots);
        let all = clean_list(path, level, slots);
        let id = path[level].page_id();
        assert forall|k: int| 0 <= k < rest.len() implies (#[trigger] rest[k]) != id && clean_ids(
            path,
            level,
            slots,
        ).contains(rest[k]) by {
            assert(clean_ids(path, level + 1, slots).contains(rest[k]));
            let i = choose|i: int|
                level + 1 <= i < path.len() && (#[trigger] path[i]).page_id() == rest[k];
            assert(path[level].page_id() != path[i].page_id());
        }
        if slots.contains_key(id) {
            assert(all =~= rest);
        } else {
            assert(all =~= seq![id] + rest);
            assert forall|k: int| 0 <= k < all.len() implies clean_ids(
                path,
                level,
                slots,
            ).contains(#[trigger] all[k]) by {
                if k == 0 {
                    assert(path[level].page_id() == id);
                } else {
                    assert(all[k] == rest[k - 1]);
                }
            }
            assert forall|i: int, j: int| 0 <= i < j < all.len() implies all[i] != all[j] by {
                assert(all[j] == rest[j - 1]);
                if i > 0 {
                    assert(all[i] == rest[i - 1]);
                }
            }
        }
    }
}

/// Every page of a path that had no copy is among those that it was copied from.
proof fn lemma_clean_listed(
    path: Seq<Page>,
    level: int,
    slots: Map<PageId, DirtyPageSlot>,
    i: int,
) -> (k: int)
    requires
        0 <= level <= i < path.len(),
        !slots.contains_key(path[i].page_id()),
    ensures
        0 <= k < clean_list(path, level, slots).len(),
        clean_list(path, level, slots)[k] == path[i].page_id(),
    decreases i - level,
{
    if level == i {
        0
    } else {
        let k = lemma_clean_listed(path, level + 1, slots, i);
        if slots.contains_key(path[level].page_id()) {
            k
        } else {
            k + 1
        }
    }
}

/// Storing a pair frees the pages of the path that it makes copies of, each of them once, and no others:
/// those that the transaction has copied before are not freed again.
pub proof fn law_insert_frees_what_it_copies(
    pages: PageManager,
    pages_after: PageManager,
    before: WriteTransaction,
    after: WriteTransaction,
    oldest: Option<TransactionId>,
    path: Seq<Page>,
    key: Seq<u8>,
    value: Seq<u8>,
)
    requires
        path_ok(path, key, pages.io().size() as nat),
        insert_effect(before, after, pages, pages_after, oldest, path, key, value),
    ensures
        ({
            let n = before.freed().len();
            &&& n <= after.freed().len()
            &&& after.freed().take(n as int) == before.freed()
            &&& after.freed().skip(n as int).no_duplicates()
            &&& forall|p: PageId| #[trigger]
                after.freed().skip(n as int).contains(p) <==> !before.slots().contains_key(p)
                    && exists|i: int| 0 <= i < path.len() && (#[trigger] path[i]).page_id() == p
        }),
{
    let n = before.freed().len() as int;
    let slots = before.slots();
    let list = clean_list(path, 0, slots);
    lemma_clean_list(path, 0, slots);
    assert(after.freed().take(n) =~= before.freed());
    assert(after.freed().skip(n) =~= list);
    assert forall|p: PageId| #[trigger] list.contains(p) <==> !slots.contains_key(p) && exists|i: int|
        0 <= i < path.len() && (#[trigger] path[i]).page_id() == p by {
        if list.contains(p) {
            let k = choose|k: int| 0 <= k < list.len() && list[k] == p;
            assert(clean_ids(path, 0, slots).contains(list[k]));
        }
        if !slots.contains_key(p) && exists|i: int|
            0 <= i < path.len() && (#[trigger] path[i]).page_id() == p {
            let i = choose|i: int| 0 <= i < path.len() && (#[trigger] path[i]).page_id() == p;
            let k = lemma_clean_listed(path, 0, slots, i);
            assert(list[k] == p);
        }
    }
}

/// Storing a pair keeps the promises of a transaction that is under way, and changes what its tree
/// holds under that key, and nothing else.
pub proof fn law_insert_keeps_writing(
    pages: PageManager,
    pages_after: PageManager,
    slot: CommitSlot,
    before: WriteTransaction,
    after: WriteTransaction,
    oldest: Option<TransactionId>,
    path: Seq<Page>,
    key: Seq<u8>,
    value: Seq<u8>,
    file: Pages,
    depth: nat,
    new_depth: nat,
)
    requires
        writing(pages, slot, before, file, depth, new_depth),
        path_ok(path, key, pages.io().size() as nat),
        path_read_from(path, 0, before.slots(), file),
        insert_effect(before, after, pages, pages_after, oldest, path, key, value),
        after.settled(),
        insert_stores(file, before, after, pages, path, key, value, new_depth),
    ensures
        writing(
            pages_after,
            slot,
            after,
            file,
            depth,
            depth_after(path, key, value, new_depth),
        ),
        forall|other: Seq<u8>| #[trigger]
            updated(
                tree_get(
                    seen(file, after.slots()),
                    after.root(),
                    depth_after(path, key, value, new_depth),
                    other,
                ),
                tree_get(seen(file, before.slots()), before.root(), new_depth, other),
                other,
                key,
                value,
            ),
{
    let next_depth = depth_after(path, key, value, new_depth);
    let old_pages = commit_pages(slot, file, depth);
    let tree = seen(file, before.slots());
    let tree_after = seen(file, after.slots());
    let now = tree_pages(tree, before.root(), new_depth);
    let then = tree_pages(tree_after, after.root(), next_depth);
    let fresh = after.slots().dom().difference(before.slots().dom());
    let clean = clean_ids(path, 0, before.slots());
    let list = clean_list(path, 0, before.slots());
    assert(pages.allocator().retains(now, u64::MAX));
    assert(pages.allocator().retains(old_pages.insert(HEADER_PAGE_ID), u64::MAX));
    assert(fresh.disjoint(old_pages.insert(HEADER_PAGE_ID)));
    lemma_retains_fewer(pages_after.allocator(), now.union(fresh), then, u64::MAX);
    lemma_retains_fewer(
        pages_after.allocator(),
        old_pages.insert(HEADER_PAGE_ID).union(fresh),
        old_pages.insert(HEADER_PAGE_ID),
        u64::MAX,
    );
    assert forall|p: PageId| #[trigger] after.slots().dom().contains(
        p,
    ) implies !old_pages.insert(HEADER_PAGE_ID).contains(p) by {
        if before.slots().dom().contains(p) {
        } else {
            assert(fresh.contains(p));
        }
    }
    assert forall|p: PageId| #[trigger] then.contains(p) implies old_pages.union(
        after.slots().dom(),
    ).contains(p) by {
        if !fresh.contains(p) {
            assert(now.contains(p));
            if before.slots().dom().contains(p) {
                assert(before.slots().contains_key(p));
                assert(after.slots().contains_key(p));
            }
        }
    }
    lemma_clean_list(path, 0, before.slots());
    assert forall|k: int| 0 <= k < list.len() implies {
        &&& old_pages.contains(#[trigger] list[k])
        &&& now.contains(list[k])
        &&& !then.contains(list[k])
    } by {
        assert(clean.contains(list[k]));
        assert(now.contains(list[k]));
        assert(!before.slots().dom().contains(list[k]));
        assert(!fresh.contains(list[k]));
    }
    let freed = after.freed();
    assert forall|i: int| 0 <= i < freed.len() implies old_pages.contains(#[trigger] freed[i])
        && !then.contains(freed[i]) by {
        if i < before.freed().len() {
            assert(freed[i] == before.freed()[i]);
            assert(!fresh.contains(freed[i]));
        } else {
            assert(freed[i] == list[i - before.freed().len()]);
        }
    }
    assert forall|i: int, j: int| 0 <= i < j < freed.len() implies freed[i] != freed[j] by {
        let n = before.freed().len() as int;
        if j < n {
            assert(before.freed()[i] != before.freed()[j]);
        } else if i < n {
            assert(freed[i] == before.freed()[i]);
            assert(now.contains(list[j - n]));
        } else {
            assert(list[i - n] != list[j - n]);
        }
    }
}

/// While a transaction is being written, the last commit stands, whatever has become of the pages
/// that were to be written, the header among them: they are none of its own. It will be found
/// intact when the file is opened again.
pub proof fn law_commit_survives_partial_writes(
    pages: PageManager,
    slot: CommitSlot,
    transaction: WriteTransaction,
    file: Pages,
    torn: Pages,
    depth: nat,
    new_depth: nat,
)
    requires
        writing(pages, slot, transaction, file, depth, new_depth),
        changed_only(file, torn, transaction.slots().dom().insert(HEADER_PAGE_ID)),
    ensures
        committed(pages, slot, torn, depth),
        intact(torn, slot.root_page_id, slot.root_page_checksum),
        forall|key: Seq<u8>| #[trigger]
            tree_get(torn, slot.root_page_id, depth, key) == tree_get(
                file,
                slot.root_page_id,
                depth,
                key,
            ),
{
    let size = pages.io().size() as nat;
    lemma_agree_outside(
        file,
        torn,
        transaction.slots().dom().insert(HEADER_PAGE_ID),
        commit_pages(slot, file, depth),
    );
    lemma_tree_frame(
        file,
        torn,
        slot.root_page_id,
        slot.root_page_checksum,
        depth,
        None,
        None,
        size,
    );
    law_tree_is_intact(
        torn,
        slot.root_page_id,
        slot.root_page_checksum,
        depth,
        None,
        None,
        size,
    );
}

/// Once all pages of a transaction and its header are written and it is published, the file holds
/// its tree: what the transaction saw is what was committed.
pub proof fn law_commit_publishes(
    pages: PageManager,
    published: PageManager,
    slot: CommitSlot,
    new_slot: CommitSlot,
    transaction: WriteTransaction,
    file: Pages,
    header: Seq<u8>,
    depth: nat,
    new_depth: nat,
)
    requires
        writing(pages, slot, transaction, file, depth, new_depth),
        new_slot.root_page_id == transaction.root(),
        new_slot.root_page_checksum == transaction.root_checksum(),
        new_slot.next_page_id == pages.allocator().next(),
        published.io().size() == pages.io().size(),
        published.allocator().next() == pages.allocator().next(),
        published.allocator().freed() == pages.allocator().freed() + freed_entries(
            transaction.freed(),
            transaction.id(),
        ),
    ensures
        ({
            let written = seen(file, transaction.slots()).insert(HEADER_PAGE_ID, header);
            &&& committed(published, new_slot, written, new_depth)
            &&& intact(written, new_slot.root_page_id, new_slot.root_page_checksum)
            &&& forall|key: Seq<u8>| #[trigger]
                tree_get(written, new_slot.root_page_id, new_depth, key) == tree_get(
                    seen(file, transaction.slots()),
                    transaction.root(),
                    new_depth,
                    key,
                )
        }),
{
    let tree = seen(file, transaction.slots());
    let written = tree.insert(HEADER_PAGE_ID, header);
    let old_pages = commit_pages(slot, file, depth);
    let new_pages = tree_pages(tree, transaction.root(), new_depth);
    assert(!new_pages.contains(HEADER_PAGE_ID)) by {
        assert(old_pages.insert(HEADER_PAGE_ID).contains(HEADER_PAGE_ID));
    }
    assert(agree_on(tree, written, new_pages));
    lemma_tree_frame(
        tree,
        written,
        transaction.root(),
        transaction.root_checksum(),
        new_depth,
        None,
        None,
        pages.io().size() as nat,
    );
    law_tree_is_intact(
        written,
        transaction.root(),
        transaction.root_checksum(),
        new_depth,
        None,
        None,
        pages.io().size() as nat,
    );
    lemma_retains_fewer(
        pages.allocator(),
        old_pages.insert(HEADER_PAGE_ID),
        old_pages,
        u64::MAX,
    );
    assert(pages.allocator().retains(new_pages.insert(HEADER_PAGE_ID), u64::MAX)) by {
        assert(old_pages.insert(HEADER_PAGE_ID).contains(HEADER_PAGE_ID));
    }
    lemma_freed_retained(
        pages.allocator(),
        published.allocator(),
        transaction.freed(),
        transaction.id(),
        old_pages,
        new_pages.insert(HEADER_PAGE_ID),
        u64::MAX,
    );
}

/// What was stored last is what is read once it was committed, and under every other key the same
/// is read as before.
pub proof fn law_read_gives_back_write(
    pages: PageManager,
    pages_after: PageManager,
    published: PageManager,
    slot: CommitSlot,
    new_slot: CommitSlot,
    before: WriteTransaction,
    after: WriteTransaction,
    oldest: Option<TransactionId>,
    path: Seq<Page>,
    key: Seq<u8>,
    value: Seq<u8>,
    file: Pages,
    header: Seq<u8>,
    depth: nat,
    old_depth: nat,
)
    requires
        writing(pages, slot, before, file, depth, old_depth),
        path_ok(path, key, pages.io().size() as nat),
        path_read_from(path, 0, before.slots(), file),
        insert_effect(before, after, pages, pages_after, oldest, path, key, value),
        after.settled(),
        insert_stores(file, before, after, pages, path, key, value, old_depth),
        new_slot.root_page_id == after.root(),
        new_slot.root_page_checksum == after.root_checksum(),
        new_slot.next_page_id == pages_after.allocator().next(),
        published.io().size() == pages_after.io().size(),
        published.allocator().next() == pages_after.allocator().next(),
        published.allocator().freed() == pages_after.allocator().freed() + freed_entries(
            after.freed(),
            after.id(),
        ),
    ensures
        ({
            let written = seen(file, after.slots()).insert(HEADER_PAGE_ID, header);
            let new_depth = depth_after(path, key, value, old_depth);
            let root = new_slot.root_page_id;
            &&& search_at(
                written,
                root,
                new_depth,
                key,
                published.io().size() as nat,
                Some(value),
            )
            &&& forall|other: Seq<u8>|
                other != key ==> #[trigger] search_at(
                    written,
                    root,
                    new_depth,
                    other,
                    published.io().size() as nat,
                    tree_get(seen(file, before.slots()), before.root(), old_depth, other),
                )
        }),
{
    let written = seen(file, after.slots()).insert(HEADER_PAGE_ID, header);
    let new_depth = depth_after(path, key, value, old_depth);
    let size = published.io().size() as nat;
    law_insert_keeps_writing(
        pages,
        pages_after,
        slot,
        before,
        after,
        oldest,
        path,
        key,
        value,
        file,
        depth,
        old_depth,
    );
    law_commit_publishes(
        pages_after,
        published,
        slot,
        new_slot,
        after,
        file,
        header,
        depth,
        new_depth,
    );
    let root = new_slot.root_page_id;
    let old_tree = seen(file, before.slots());
    assert(tree_ok(
        written,
        root,
        new_slot.root_page_checksum,
        new_depth,
        None,
        None,
        size,
    ));
    assert(within(key, None, None));
    assert(updated(
        tree_get(seen(file, after.slots()), after.root(), new_depth, key),
        tree_get(old_tree, before.root(), old_depth, key),
        key,
        key,
        value,
    ));
    assert(tree_get(written, root, new_depth, key) == Some(value));
    assert forall|other: Seq<u8>| other != key implies #[trigger] search_at(
        written,
        root,
        new_depth,
        other,
        size,
        tree_get(old_tree, before.root(), old_depth, other),
    ) by {
        assert(within(other, None, None));
        assert(updated(
            tree_get(seen(file, after.slots()), after.root(), new_depth, other),
            tree_get(old_tree, before.root(), old_depth, other),
            other,
            key,
            value,
        ));
        assert(tree_get(written, root, new_depth, other) == tree_get(
            seen(file, after.slots()),
            after.root(),
            new_depth,
            other,
        ));
    }
}

/// A commit stands when its file is opened again: the pages that it uses are not handed out.
pub proof fn law_commit_survives_reopening(
    pages: PageManager,
    reopened: PageManager,
    slot: CommitSlot,
    file: Pages,
    depth: nat,
)
    requires
        committed(pages, slot, file, depth),
        reopened.io().size() == pages.io().size(),
        reopened.allocator().freed() == Seq::<FreedPage>::empty(),
        reopened.allocator().next() == slot.next_page_id,
        reopened.allocator().inv(),
    ensures
        committed(reopened, slot, file, depth),
{
    assert(commit_pages(slot, file, depth).contains(slot.root_page_id));
}

/// The free list with the pages of a commit that are not used any more.
proof fn lemma_freed_retained(
    before: PageAllocator,
    after: PageAllocator,
    freed: Seq<PageId>,
    transaction_id: TransactionId,
    old_pages: Set<PageId>,
    kept: Set<PageId>,
    reader: TransactionId,
)
    requires
        before.inv(),
        before.retains(old_pages, u64::MAX),
        before.retains(kept, reader),
        after.next() == before.next(),
        after.freed() == before.freed() + freed_entries(freed, transaction_id),
        freed.no_duplicates(),
        forall|i: int|
            0 <= i < freed.len() ==> old_pages.contains(#[trigger] freed[i]) && (kept.contains(
                freed[i],
            ) ==> transaction_id > reader),
    ensures
        after.inv(),
        after.retains(kept, reader),
{
    let n = before.freed().len() as int;
    assert forall|i: int| 0 <= i < after.freed().len() implies (#[trigger] after.freed()[i]).page_id
        < after.next() && (i < n ==> after.freed()[i] == before.freed()[i]) && (i >= n
        ==> after.freed()[i] == FreedPage { page_id: freed[i - n], transaction_id }) by {
        if i >= n {
            assert(old_pages.contains(freed[i - n]));
        }
    }
    assert forall|i: int, j: int| 0 <= i < j < after.freed().len() implies (
    #[trigger] after.freed()[i]).page_id != (#[trigger] after.freed()[j]).page_id by {
        if j < n {
            assert(before.freed()[i].page_id != before.freed()[j].page_id);
        } else if i < n {
            assert(old_pages.contains(freed[j - n]));
            assert(before.freed()[i] == after.freed()[i]);
        } else {
            assert(freed[i - n] != freed[j - n]);
        }
    }
    assert forall|i: int|
        0 <= i < after.freed().len() && kept.contains(
            (#[trigger] after.freed()[i]).page_id,
        ) implies after.freed()[i].transaction_id > reader by {
        if i < n {
            assert(after.freed()[i] == before.freed()[i]);
        } else {
            assert(kept.contains(freed[i - n]));
        }
    }
}

/// Whether the tree of a commit that is being read is all there, and none of its pages will be
/// handed out while it is being read.
pub open spec fn readable(
    pages: PageManager,
    root: PageId,
    reader: TransactionId,
    file: Pages,
    depth: nat,
) -> bool {
    &&& exists|checksum: u128| #[trigger]
        tree_ok(file, root, checksum, depth, None, None, pages.io().size() as nat)
    &&& pages.allocator().retains(tree_pages(file, root, depth), reader)
}

/// A commit can be read from when it is published.
pub proof fn law_read_begins(
    pages: PageManager,
    slot: CommitSlot,
    reader: TransactionId,
    file: Pages,
    depth: nat,
)
    requires
        committed(pages, slot, file, depth),
    ensures
        readable(pages, slot.root_page_id, reader, file, depth),
{
    let all = commit_pages(slot, file, depth);
    lemma_retains_fewer(pages.allocator(), all.insert(HEADER_PAGE_ID), all, u64::MAX);
    assert forall|i: int|
        0 <= i < pages.allocator().freed().len() && all.contains(
            (#[trigger] pages.allocator().freed()[i]).page_id,
        ) implies pages.allocator().freed()[i].transaction_id > reader by {
        assert(pages.allocator().freed()[i].transaction_id > u64::MAX);
    }
}

/// Storing a pair takes no page of a commit that is being read.
pub proof fn law_insert_keeps_readable(
    pages: PageManager,
    pages_after: PageManager,
    before: WriteTransaction,
    after: WriteTransaction,
    oldest: Option<TransactionId>,
    path: Seq<Page>,
    key: Seq<u8>,
    value: Seq<u8>,
    root: PageId,
    reader: TransactionId,
    file: Pages,
    depth: nat,
)
    requires
        readable(pages, root, reader, file, depth),
        oldest_or_max(oldest) <= reader,
        insert_effect(before, after, pages, pages_after, oldest, path, key, value),
        before.slots().dom().disjoint(tree_pages(file, root, depth)),
    ensures
        readable(pages_after, root, reader, file, depth),
        after.slots().dom().disjoint(tree_pages(file, root, depth)),
{
    let all = tree_pages(file, root, depth);
    let fresh = after.slots().dom().difference(before.slots().dom());
    assert(pages.allocator().retains(all, reader));
    assert(fresh.disjoint(all));
    lemma_retains_fewer(pages_after.allocator(), all.union(fresh), all, reader);
    assert forall|p: PageId| #[trigger] after.slots().dom().contains(p) implies !all.contains(p) by {
        if !before.slots().dom().contains(p) {
            assert(fresh.contains(p));
        }
    }
}

/// A reader sees the same before and after a commit is written and published.
pub proof fn law_commit_keeps_readable(
    pages: PageManager,
    published: PageManager,
    slot: CommitSlot,
    transaction: WriteTransaction,
    root: PageId,
    reader: TransactionId,
    file: Pages,
    header: Seq<u8>,
    depth: nat,
    new_depth: nat,
    reader_depth: nat,
)
    requires
        writing(pages, slot, transaction, file, depth, new_depth),
        readable(pages, root, reader, file, reader_depth),
        reader <= slot.transaction_id,
        transaction.slots().dom().disjoint(tree_pages(file, root, reader_depth)),
        !tree_pages(file, root, reader_depth).contains(HEADER_PAGE_ID),
        published.io().size() == pages.io().size(),
        published.allocator().next() == pages.allocator().next(),
        published.allocator().freed() == pages.allocator().freed() + freed_entries(
            transaction.freed(),
            transaction.id(),
        ),
    ensures
        ({
            let written = seen(file, transaction.slots()).insert(HEADER_PAGE_ID, header);
            &&& readable(published, root, reader, written, reader_depth)
            &&& tree_pages(written, root, reader_depth) == tree_pages(file, root, reader_depth)
            &&& forall|key: Seq<u8>| #[trigger]
                tree_get(written, root, reader_depth, key) == tree_get(
                    file,
                    root,
                    reader_depth,
                    key,
                )
        }),
{
    let size = pages.io().size() as nat;
    let written = seen(file, transaction.slots()).insert(HEADER_PAGE_ID, header);
    let all = tree_pages(file, root, reader_depth);
    let old_pages = commit_pages(slot, file, depth);
    let checksum = choose|checksum: u128| #[trigger]
        tree_ok(file, root, checksum, reader_depth, None, None, size);
    assert forall|p: PageId| #[trigger] all.contains(p) && file.contains_key(
        p,
    ) implies written.contains_key(p) && written[p] == file[p] by {
        assert(!transaction.slots().dom().contains(p));
    }
    lemma_tree_frame(file, written, root, checksum, reader_depth, None, None, size);
    lemma_retains_fewer(
        pages.allocator(),
        old_pages.insert(HEADER_PAGE_ID),
        old_pages,
        u64::MAX,
    );
    lemma_freed_retained(
        pages.allocator(),
        published.allocator(),
        transaction.freed(),
        transaction.id(),
        old_pages,
        all,
        reader,
    );
}

} // verus!
