//! Searching and changing the tree.

use crate::kv::btree::branch_node::{
    add_child, branch_children, branch_count, branch_end, branch_fits, branch_has_room,
    branch_laid_out, branch_size, branch_wf, child_index, first_key_dropped, keys_size,
    law_branch_room_is_counted, lemma_add_child_sorted, separators, set_child, BranchBuilder,
    BranchPageMutator, Child,
};
use crate::kv::btree::leaf_node::{
    law_leaf_room_is_counted, leaf_end, leaf_end_after, leaf_fits, leaf_has_room, leaf_laid_out,
    leaf_pairs, leaf_size, leaf_wf, LeafBuilder, LeafPageMutator,
};
use crate::kv::btree::node::{node_wf, NodeKind};
use crate::kv::btree::tree_insert::{
    lemma_branch_node_split, lemma_branch_node_stored, lemma_leaf_node_split,
    lemma_leaf_node_stored, lemma_path_seen, node_ready, node_stores, seen, slots_below, Slots,
};
use crate::kv::btree::tree_model::{
    changed_only, child_high, child_low, children_with, lemma_child_bounds, replacement_get,
    tree_get, tree_ok, tree_pages, updated, within, High, Low, Pages, Replacement, SplitOff,
};
use crate::kv::btree::tree_path::{
    admissible, branch_halves_fit, clean_ids, clean_list, leaf_halves_fit,
    lemma_all_clean, lemma_branch_size_same_keys, passed_up, path_current, path_ids, path_ok, path_read_from,
    path_step_ok,
};
use crate::kv::btree::tree_update::{halves, lemma_new_root};
use crate::kv::btree::tree_written::{
    insertion_below, lemma_below_ids, lemma_clean_list_same, lemma_pages_taken, lemma_written_kept,
    has_page, page_bytes, pages_taken, splits, zeros, Insertion,
};
use crate::kv::bytes::u64_at;
use crate::kv::entries::{lemma_upsert, upsert};
use crate::kv::error::Result;
use crate::kv::keys::{keys_sorted, lemma_rank_splits};
use crate::kv::pages::checksum::{checksum_page, xxh3_128};
use crate::kv::pages::page::{Page, PageMut};
use crate::kv::pages::page_allocator::{
    hands_out, lemma_hands_out_nothing, PageAllocator, lemma_hands_out_twice, lemma_retains_fewer,
    lemma_takes_shift, takes,
};
use crate::kv::pages::page_manager::PageManager;
use crate::kv::pages::PageId;
use crate::kv::transactions::dirty_pages::DirtyPageSlot;
use crate::kv::transactions::write_transaction::WriteTransaction;
use crate::kv::transactions::TransactionId;
use vstd::prelude::*;

verus! {

/// A node that was split: where its upper half is, and the first key there.
pub struct PageSplit {
    pub separator_key: Vec<u8>,
    pub right_page_id: PageId,
    pub right_page_checksum: u128,
}

/// What became of a node that a pair was stored below.
pub struct InsertionResult {
    pub replacement_page_id: PageId,
    pub replacement_page_checksum: u128,
    pub split: Option<PageSplit>,
}

impl InsertionResult {
    pub open spec fn view(self) -> Replacement {
        Replacement {
            page_id: self.replacement_page_id,
            checksum: self.replacement_page_checksum,
            split: match self.split {
                None => None,
                Some(split) => Some(
                    SplitOff {
                        key: split.separator_key@,
                        page_id: split.right_page_id,
                        checksum: split.right_page_checksum,
                    },
                ),
            },
        }
    }
}

/// What storing a pair below the node at `level` of a path may do to a transaction: it takes copies
/// of the rest of the path, frees the pages that it copied, takes new pages where nodes are split,
/// and leaves everything else alone.
pub open spec fn insertion_effect(
    before: WriteTransaction,
    after: WriteTransaction,
    pages_before: PageManager,
    pages_after: PageManager,
    oldest: Option<TransactionId>,
    path: Seq<Page>,
    level: int,
    key: Seq<u8>,
    value: Seq<u8>,
) -> bool {
    &&& after.same_but_pages(before)
    &&& after.freed() == before.freed() + clean_list(path, level, before.slots())
    &&& forall|p: PageId| #[trigger]
        before.slots().contains_key(p) ==> after.slots().contains_key(p) && (!path_ids(
            path,
            level,
        ).contains(p) ==> after.slots()[p] == before.slots()[p])
    &&& forall|p: PageId| #[trigger]
        after.slots().contains_key(p) && (!before.slots().contains_key(p) || path_ids(
            path,
            level,
        ).contains(p)) ==> after.slots()[p] is Available
    &&& after.works_on(pages_after)
    &&& pages_after.same_file(pages_before)
    &&& hands_out(
        pages_before.allocator(),
        pages_after.allocator(),
        after.slots().dom().difference(before.slots().dom()),
        pages_taken(path, level, before.slots(), key, value),
        oldest,
    )
}

/// What has to hold before a pair is stored below the node at `level` of a path: the path is in
/// good order and is what the transaction sees, none of its pages is free, the pages have room for
/// the pair, and there are page ids left.
pub open spec fn insertion_ready(
    transaction: WriteTransaction,
    pages: PageManager,
    path: Seq<Page>,
    level: int,
    key: Seq<u8>,
    value: Seq<u8>,
) -> bool {
    let size = pages.io().size() as nat;
    &&& 0 <= level < path.len()
    &&& transaction.works_on(pages)
    &&& path_ok(path, key, size)
    &&& path_current(path, level, transaction.slots())
    &&& pages.allocator().retains(path_ids(path, level), u64::MAX)
    &&& admissible(path, level, key, value, size)
    &&& key.len() + value.len() <= usize::MAX
    &&& pages.allocator().next() + 2 * (path.len() - level) < u64::MAX
}

/// Children keep their separators when one of them is replaced.
proof fn lemma_set_child_separators(children: Seq<Child>, i: int, page_id: PageId, checksum: u128)
    requires
        0 <= i < children.len(),
    ensures
        separators(set_child(children, i, page_id, checksum)) == separators(children),
{
    assert(separators(set_child(children, i, page_id, checksum)) =~= separators(children));
}

/// Adding a child after one was replaced: it goes where it would have gone before, so that the
/// halves take the same room.
proof fn lemma_halves_same_keys(
    children: Seq<Child>,
    i: int,
    page_id: PageId,
    checksum: u128,
    separator: Seq<u8>,
    right_id: PageId,
    right_checksum: u128,
)
    requires
        children.len() >= 1,
        keys_sorted(separators(children)),
        0 <= i < children.len(),
    ensures
        ({
            let plain = add_child(children, separator, 0, 0);
            let out = add_child(
                set_child(children, i, page_id, checksum),
                separator,
                right_id,
                right_checksum,
            );
            let mid = out.len() as int / 2;
            &&& out.len() == plain.len()
            &&& out.len() >= 2
            &&& out[mid].key == plain[mid].key
            &&& branch_size(out.take(mid)) == branch_size(plain.take(mid))
            &&& branch_size(out.skip(mid)) == branch_size(plain.skip(mid))
        }),
{
    let plain = add_child(children, separator, 0, 0);
    let replaced = set_child(children, i, page_id, checksum);
    let out = add_child(replaced, separator, right_id, right_checksum);
    let mid = out.len() as int / 2;
    lemma_set_child_separators(children, i, page_id, checksum);
    lemma_rank_splits(separators(children), separator);
    assert forall|j: int| 0 <= j < out.len() implies (#[trigger] out[j]).key == plain[j].key by {
        if j < replaced.len() {
            assert(replaced[j].key == children[j].key);
        }
        if j > 0 {
            assert(replaced[j - 1].key == children[j - 1].key);
        }
    }
    lemma_branch_size_same_keys(out.take(mid), plain.take(mid));
    lemma_branch_size_same_keys(out.skip(mid), plain.skip(mid));
}

/// Whether the transaction's copy of the node at `level` of a path is being worked on: it was its
/// own already, or was taken for this.
pub open spec fn node_copied(
    before: WriteTransaction,
    pages_before: PageManager,
    copied: WriteTransaction,
    pages_copied: PageManager,
    oldest: Option<TransactionId>,
    path: Seq<Page>,
    level: int,
    new_id: PageId,
) -> bool {
    let page_id = path[level].page_id();
    &&& copied.same_but_pages(before)
    &&& copied.slots() == before.slots().insert(new_id, DirtyPageSlot::CheckedOut)
    &&& copied.works_on(pages_copied)
    &&& pages_copied.same_file(pages_before)
    &&& !path_ids(path, level + 1).contains(new_id)
    &&& hands_out(
        pages_before.allocator(),
        pages_copied.allocator(),
        taken(before.slots(), page_id, new_id),
        taken_count(before.slots(), page_id),
        oldest,
    )
    &&& if before.slots().contains_key(page_id) {
        &&& new_id == page_id
        &&& copied.freed() == before.freed()
    } else {
        &&& new_id == pages_before.allocator().nth_page(0, oldest)
        &&& !before.slots().contains_key(new_id)
        &&& copied.freed() == before.freed().push(page_id)
    }
}

/// What a transaction's page holds, once it was given back.
pub open spec fn page_at(transaction: WriteTransaction, page_id: PageId) -> PageMut {
    transaction.slots()[page_id]->Available_0
}

/// What storing a pair in a leaf does: the leaf holds its pairs and the new one, or a leaf on a new
/// page holds the upper half of them.
pub open spec fn leaf_written(
    before: WriteTransaction,
    after: WriteTransaction,
    pages_before: PageManager,
    pages_after: PageManager,
    oldest: Option<TransactionId>,
    page: PageMut,
    key: Seq<u8>,
    value: Seq<u8>,
    result: InsertionResult,
) -> bool {
    let size = pages_before.io().size();
    let new = page_at(after, page.page_id());
    let pairs = upsert(leaf_pairs(page.bytes()), key, value);
    let mid = pairs.len() as int / 2;
    &&& result.replacement_page_id == page.page_id()
    &&& result.replacement_page_checksum == xxh3_128(new.bytes())
    &&& new.page_id() == page.page_id()
    &&& new.bytes().len() == size
    &&& leaf_wf(new.bytes())
    &&& if leaf_fits(page.bytes(), key.len(), value.len()) {
        &&& result.split is None
        &&& leaf_pairs(new.bytes()) == pairs
        &&& leaf_end(new.bytes()) == leaf_end_after(page.bytes(), key, value)
        &&& after.slots() == before.slots().insert(page.page_id(), DirtyPageSlot::Available(new))
        &&& pages_after == pages_before
    } else {
        let split = result.split->0;
        let right = page_at(after, split.right_page_id);
        &&& result.split is Some
        &&& pairs.len() >= 2
        &&& split.separator_key@ == pairs[mid].0
        &&& leaf_pairs(new.bytes()) == pairs.take(mid)
        &&& leaf_wf(right.bytes())
        &&& leaf_pairs(right.bytes()) == pairs.skip(mid)
        &&& leaf_laid_out(new.bytes(), zeros(size as nat), pairs.take(mid))
        &&& leaf_laid_out(right.bytes(), zeros(size as nat), pairs.skip(mid))
        &&& page_split_off(before, after, pages_before, pages_after, oldest, new, right, split)
    }
    &&& after.same_but_pages(before)
    &&& after.freed() == before.freed()
    &&& after.works_on(pages_after)
    &&& pages_after.same_file(pages_before)
}

/// What entering the outcome for a child into a branch page does: the page holds its children and
/// the new one, or a branch page on a new page holds the upper half of them.
pub open spec fn branch_written(
    before: WriteTransaction,
    after: WriteTransaction,
    pages_before: PageManager,
    pages_after: PageManager,
    oldest: Option<TransactionId>,
    page: PageMut,
    index: int,
    child: InsertionResult,
    result: InsertionResult,
) -> bool {
    let size = pages_before.io().size();
    let new = page_at(after, page.page_id());
    let out = children_with(branch_children(page.bytes()), index, child@);
    let mid = out.len() as int / 2;
    &&& result.replacement_page_id == page.page_id()
    &&& result.replacement_page_checksum == xxh3_128(new.bytes())
    &&& new.page_id() == page.page_id()
    &&& new.bytes().len() == size
    &&& branch_wf(new.bytes())
    &&& if child.split is None || branch_fits(page.bytes(), child.split->0.separator_key@.len()) {
        &&& result.split is None
        &&& branch_children(new.bytes()) == out
        &&& branch_end(new.bytes()) == if branch_count(new.bytes()) == branch_count(page.bytes()) {
            branch_end(page.bytes()) as int
        } else {
            branch_end(page.bytes()) - child.split->0.separator_key@.len()
        }
        &&& after.slots() == before.slots().insert(page.page_id(), DirtyPageSlot::Available(new))
        &&& pages_after == pages_before
    } else {
        let split = result.split->0;
        let right = page_at(after, split.right_page_id);
        let plain = add_child(
            branch_children(page.bytes()),
            child.split->0.separator_key@,
            0,
            0,
        );
        &&& result.split is Some
        &&& out.len() >= 2
        &&& split.separator_key@ == out[mid].key
        &&& plain.len() == out.len()
        &&& plain[mid].key == out[mid].key
        &&& branch_children(new.bytes()) == first_key_dropped(out.take(mid))
        &&& branch_wf(right.bytes())
        &&& branch_children(right.bytes()) == first_key_dropped(out.skip(mid))
        &&& branch_laid_out(new.bytes(), zeros(size as nat), out.take(mid))
        &&& branch_laid_out(right.bytes(), zeros(size as nat), out.skip(mid))
        &&& page_split_off(before, after, pages_before, pages_after, oldest, new, right, split)
    }
    &&& after.same_but_pages(before)
    &&& after.freed() == before.freed()
    &&& after.works_on(pages_after)
    &&& pages_after.same_file(pages_before)
}

/// Whether `new` was given back, and `right` is a page that was taken for its upper half.
pub open spec fn page_split_off(
    before: WriteTransaction,
    after: WriteTransaction,
    pages_before: PageManager,
    pages_after: PageManager,
    oldest: Option<TransactionId>,
    new: PageMut,
    right: PageMut,
    split: PageSplit,
) -> bool {
    &&& right.page_id() == split.right_page_id
    &&& split.right_page_id == pages_before.allocator().nth_page(0, oldest)
    &&& split.right_page_checksum == xxh3_128(right.bytes())
    &&& right.bytes().len() == pages_before.io().size()
    &&& !before.slots().contains_key(split.right_page_id)
    &&& after.slots() == before.slots().insert(
        new.page_id(),
        DirtyPageSlot::Available(new),
    ).insert(split.right_page_id, DirtyPageSlot::Available(right))
    &&& hands_out(
        pages_before.allocator(),
        pages_after.allocator(),
        Set::empty().insert(split.right_page_id),
        1,
        oldest,
    )
}

/// The page that was taken for a copy, if one was.
pub open spec fn taken(slots: Slots, page_id: PageId, new_id: PageId) -> Set<PageId> {
    if slots.contains_key(page_id) {
        Set::empty()
    } else {
        Set::empty().insert(new_id)
    }
}

/// How many pages were taken for a copy.
pub open spec fn taken_count(slots: Slots, page_id: PageId) -> nat {
    if slots.contains_key(page_id) {
        0
    } else {
        1
    }
}

/// That a pair was stored below the node at `level` of a path, in every tree that the path may
/// belong to.
pub open spec fn level_stored(
    before: WriteTransaction,
    after: WriteTransaction,
    pages: PageManager,
    path: Seq<Page>,
    level: int,
    key: Seq<u8>,
    value: Seq<u8>,
    replacement: Replacement,
) -> bool {
    &&& passed_up(path, level, key, value) == match replacement.split {
        Some(split) => Some(split.key),
        None => None,
    }
    &&& forall|file: Pages, checksum: u128, low: Low, high: High| #[trigger]
        node_stores(
            file,
            before.slots(),
            after.slots(),
            path,
            level,
            key,
            value,
            pages.io().size() as nat,
            replacement,
            checksum,
            low,
            high,
        )
}

/// Storing a pair in the leaf at the end of a path, once the leaf was copied.
proof fn lemma_leaf_level(
    before: WriteTransaction,
    copied: WriteTransaction,
    after: WriteTransaction,
    pages_before: PageManager,
    pages_copied: PageManager,
    pages_after: PageManager,
    oldest: Option<TransactionId>,
    path: Seq<Page>,
    level: int,
    key: Seq<u8>,
    value: Seq<u8>,
    page: PageMut,
    result: InsertionResult,
)
    requires
        insertion_ready(before, pages_before, path, level, key, value),
        level == path.len() - 1,
        node_copied(
            before,
            pages_before,
            copied,
            pages_copied,
            oldest,
            path,
            level,
            page.page_id(),
        ),
        page.bytes() == path[level].bytes(),
        leaf_written(
            copied,
            after,
            pages_copied,
            pages_after,
            oldest,
            page,
            key,
            value,
            result,
        ),
    ensures
        insertion_effect(
            before,
            after,
            pages_before,
            pages_after,
            oldest,
            path,
            level,
            key,
            value,
        ),
        level_stored(before, after, pages_before, path, level, key, value, result@),
{
    let size = pages_before.io().size() as nat;
    let new_id = page.page_id();
    let slots = before.slots();
    let new = page_at(after, new_id);
    let page_id = path[level].page_id();
    assert(path.last() == path[level]);
    assert(path_step_ok(path, level, key, size));
    reveal_with_fuel(passed_up, 2);
    reveal_with_fuel(clean_list, 2);
    reveal_with_fuel(splits, 2);
    let first = taken(slots, page_id, new_id);
    assert(clean_list(path, level, slots) =~= if slots.contains_key(page_id) {
        Seq::empty()
    } else {
        seq![page_id]
    });
    assert(after.freed() =~= before.freed() + clean_list(path, level, slots));
    assert(path_ids(path, level) =~= Set::empty().insert(page_id)) by {
        assert(path[level].page_id() == page_id);
    }
    if leaf_fits(page.bytes(), key.len(), value.len()) {
        assert(after.slots() =~= slots.insert(new_id, DirtyPageSlot::Available(new)));
        assert(after.slots().dom().difference(slots.dom()) =~= first);
        assert forall|file: Pages, checksum: u128, low: Low, high: High| #[trigger]
            node_stores(
                file,
                slots,
                after.slots(),
                path,
                level,
                key,
                value,
                size,
                result@,
                checksum,
                low,
                high,
            ) by {
            lemma_leaf_node_stored(
                file,
                slots,
                path,
                key,
                value,
                size,
                new,
                checksum,
                low,
                high,
            );
        }
    } else {
        let split = result.split->0;
        let right = page_at(after, split.right_page_id);
        assert(after.slots() =~= slots.insert(new_id, DirtyPageSlot::Available(new)).insert(
            split.right_page_id,
            DirtyPageSlot::Available(right),
        ));
        lemma_hands_out_twice(
            pages_before.allocator(),
            pages_copied.allocator(),
            pages_after.allocator(),
            first,
            Set::empty().insert(split.right_page_id),
            taken_count(slots, page_id),
            1,
            oldest,
        );
        assert(after.slots().dom().difference(slots.dom()) =~= first.union(
            Set::empty().insert(split.right_page_id),
        ));
        assert forall|file: Pages, checksum: u128, low: Low, high: High| #[trigger]
            node_stores(
                file,
                slots,
                after.slots(),
                path,
                level,
                key,
                value,
                size,
                result@,
                checksum,
                low,
                high,
            ) by {
            lemma_leaf_node_split(
                file,
                slots,
                path,
                key,
                value,
                size,
                new,
                right,
                checksum,
                low,
                high,
            );
        }
    }
}

/// The copy of the node at `level`.
proof fn lemma_node_copied(
    before: WriteTransaction,
    copied: WriteTransaction,
    pages_before: PageManager,
    pages_copied: PageManager,
    oldest: Option<TransactionId>,
    path: Seq<Page>,
    level: int,
    key: Seq<u8>,
    value: Seq<u8>,
    page: PageMut,
)
    requires
        insertion_ready(before, pages_before, path, level, key, value),
        ({
            let page_id = path[level].page_id();
            let new_id = page.page_id();
            &&& copied.same_but_pages(before)
            &&& copied.slots() == before.slots().insert(new_id, DirtyPageSlot::CheckedOut)
            &&& copied.works_on(pages_copied)
            &&& pages_copied.same_file(pages_before)
            &&& if before.slots().contains_key(page_id) {
                &&& new_id == page_id
                &&& before.slots()[page_id] == DirtyPageSlot::Available(page)
                &&& copied.freed() == before.freed()
                &&& pages_copied == pages_before
            } else {
                &&& page.bytes() == path[level].bytes()
                &&& new_id == pages_before.allocator().nth_page(0, oldest)
                &&& !before.slots().contains_key(new_id)
                &&& copied.freed() == before.freed().push(page_id)
                &&& hands_out(
                    pages_before.allocator(),
                    pages_copied.allocator(),
                    Set::empty().insert(new_id),
                    1,
                    oldest,
                )
            }
        }),
    ensures
        page.bytes() == path[level].bytes(),
        node_copied(
            before,
            pages_before,
            copied,
            pages_copied,
            oldest,
            path,
            level,
            page.page_id(),
        ),
{
    let page_id = path[level].page_id();
    let new_id = page.page_id();
    if before.slots().contains_key(page_id) {
        lemma_hands_out_nothing(pages_before.allocator(), oldest);
    } else {
        let all = path_ids(path, level);
        assert(pages_before.allocator().retains(all, u64::MAX));
        assert(Set::empty().insert(new_id).disjoint(all));
        assert(Set::empty().insert(new_id).contains(new_id));
    }
    lemma_path_ids_step(path, level, new_id);
    if path_ids(path, level + 1).contains(new_id) {
        let i = choose|i: int|
            level + 1 <= i < path.len() && (#[trigger] path[i]).page_id() == new_id;
        assert(path[level].page_id() != path[i].page_id());
    }
}

/// What the call for the child has to find, once the node at `level` was copied.
proof fn lemma_ready_below(
    before: WriteTransaction,
    copied: WriteTransaction,
    pages_before: PageManager,
    pages_copied: PageManager,
    oldest: Option<TransactionId>,
    path: Seq<Page>,
    level: int,
    key: Seq<u8>,
    value: Seq<u8>,
    new_id: PageId,
)
    requires
        insertion_ready(before, pages_before, path, level, key, value),
        level + 1 < path.len(),
        node_copied(before, pages_before, copied, pages_copied, oldest, path, level, new_id),
    ensures
        insertion_ready(copied, pages_copied, path, level + 1, key, value),
{
    let slots = before.slots();
    let first = taken(slots, path[level].page_id(), new_id);
    assert forall|i: int|
        level + 1 <= i < path.len() && copied.slots().contains_key(
            (#[trigger] path[i]).page_id(),
        ) implies {
        &&& copied.slots()[path[i].page_id()] is Available
        &&& copied.slots()[path[i].page_id()]->Available_0.bytes() == path[i].bytes()
    } by {
        assert(path_ids(path, level + 1).contains(path[i].page_id()));
    }
    let all = path_ids(path, level);
    assert(pages_before.allocator().retains(all, u64::MAX));
    assert(pages_copied.allocator().retains(all.union(first), u64::MAX));
    assert(path_ids(path, level + 1).subset_of(all.union(first)));
    lemma_retains_fewer(
        pages_copied.allocator(),
        all.union(first),
        path_ids(path, level + 1),
        u64::MAX,
    );
}

/// Entering what became of the child into the node at `level`, as it concerns the transaction.
proof fn lemma_branch_effect(
    before: WriteTransaction,
    copied: WriteTransaction,
    below: WriteTransaction,
    after: WriteTransaction,
    pages_before: PageManager,
    pages_copied: PageManager,
    pages_below: PageManager,
    pages_after: PageManager,
    oldest: Option<TransactionId>,
    path: Seq<Page>,
    level: int,
    key: Seq<u8>,
    value: Seq<u8>,
    page: PageMut,
    index: int,
    child: InsertionResult,
    result: InsertionResult,
)
    requires
        insertion_ready(before, pages_before, path, level, key, value),
        level + 1 < path.len(),
        node_copied(
            before,
            pages_before,
            copied,
            pages_copied,
            oldest,
            path,
            level,
            page.page_id(),
        ),
        insertion_effect(
            copied,
            below,
            pages_copied,
            pages_below,
            oldest,
            path,
            level + 1,
            key,
            value,
        ),
        page.bytes() == path[level].bytes(),
        passed_up(path, level + 1, key, value) == match child.split {
            Some(split) => Some(split.separator_key@),
            None => None,
        },
        branch_written(
            below,
            after,
            pages_below,
            pages_after,
            oldest,
            page,
            index,
            child,
            result,
        ),
    ensures
        insertion_effect(
            before,
            after,
            pages_before,
            pages_after,
            oldest,
            path,
            level,
            key,
            value,
        ),
{
    let new_id = page.page_id();
    let slots = before.slots();
    let page_id = path[level].page_id();
    let first = taken(slots, page_id, new_id);
    let fresh_below = below.slots().dom().difference(copied.slots().dom());
    let new = page_at(after, new_id);
    let first_count = taken_count(slots, page_id);
    let rest = pages_taken(path, level + 1, copied.slots(), key, value);
    assert(copied.slots().contains_key(new_id));
    assert(below.slots().contains_key(new_id));
    assert(path_step_ok(path, level, key, pages_before.io().size() as nat));
    assert(passed_up(path, level, key, value) is Some == result.split is Some);
    lemma_clean_list_below(path, level, slots, new_id);
    assert(after.freed() =~= before.freed() + clean_list(path, level, slots));
    assert(pages_taken(path, level, slots, key, value) == first_count + rest + if result.split is Some {
        1nat
    } else {
        0
    });
    lemma_hands_out_twice(
        pages_before.allocator(),
        pages_copied.allocator(),
        pages_below.allocator(),
        first,
        fresh_below,
        first_count,
        rest,
        oldest,
    );
    let fresh = after.slots().dom().difference(slots.dom());
    if result.split is None {
        assert(fresh =~= first.union(fresh_below));
    } else {
        let right_id = result.split->0.right_page_id;
        lemma_hands_out_twice(
            pages_before.allocator(),
            pages_below.allocator(),
            pages_after.allocator(),
            first.union(fresh_below),
            Set::empty().insert(right_id),
            first_count + rest,
            1,
            oldest,
        );
        assert(fresh =~= first.union(fresh_below).union(Set::empty().insert(right_id)));
    }
    assert forall|p: PageId| #[trigger] slots.contains_key(p) implies after.slots().contains_key(p)
        && (!path_ids(path, level).contains(p) ==> after.slots()[p] == slots[p]) by {
        assert(copied.slots().contains_key(p));
        assert(below.slots().contains_key(p));
        lemma_path_ids_step(path, level, p);
    }
    assert forall|p: PageId| #[trigger] after.slots().contains_key(p) && (!slots.contains_key(p)
        || path_ids(path, level).contains(p)) implies after.slots()[p] is Available by {
        lemma_path_ids_step(path, level, p);
        if p != new_id {
            if below.slots().contains_key(p) {
                assert(copied.slots().contains_key(p) == slots.contains_key(p));
            }
        }
    }
}

/// A page of a path is its first one or one of the rest.
proof fn lemma_path_ids_step(path: Seq<Page>, level: int, p: PageId)
    requires
        0 <= level < path.len(),
    ensures
        path_ids(path, level).contains(p) == (p == path[level].page_id() || path_ids(
            path,
            level + 1,
        ).contains(p)),
{
    if path_ids(path, level).contains(p) {
        let i = choose|i: int| level <= i < path.len() && (#[trigger] path[i]).page_id() == p;
        if i > level {
            assert(path_ids(path, level + 1).contains(p));
        }
    }
    if p == path[level].page_id() {
        assert(path_ids(path, level).contains(p));
    }
    if path_ids(path, level + 1).contains(p) {
        let i = choose|i: int| level + 1 <= i < path.len() && (#[trigger] path[i]).page_id() == p;
        assert(path_ids(path, level).contains(p));
    }
}

/// The pages of a path that have no copies: the node at `level`, if it has none, and those of the
/// rest.
proof fn lemma_clean_list_below(path: Seq<Page>, level: int, slots: Slots, new_id: PageId)
    requires
        0 <= level < path.len(),
        !path_ids(path, level + 1).contains(new_id),
    ensures
        clean_list(path, level, slots) == (if slots.contains_key(path[level].page_id()) {
            Seq::empty()
        } else {
            seq![path[level].page_id()]
        }) + clean_list(path, level + 1, slots.insert(new_id, DirtyPageSlot::CheckedOut)),
{
    let with = slots.insert(new_id, DirtyPageSlot::CheckedOut);
    assert forall|i: int| level + 1 <= i < path.len() implies slots.contains_key(
        (#[trigger] path[i]).page_id(),
    ) == with.contains_key(path[i].page_id()) by {
        assert(path_ids(path, level + 1).contains(path[i].page_id()));
    }
    lemma_clean_list_same(path, level + 1, slots, with);
    assert(clean_list(path, level, slots) =~= (if slots.contains_key(path[level].page_id()) {
        Seq::empty()
    } else {
        seq![path[level].page_id()]
    }) + clean_list(path, level + 1, with));
}

/// Entering what became of the child into the node at `level`, as it concerns the tree.
proof fn lemma_branch_stores(
    before: WriteTransaction,
    copied: WriteTransaction,
    below: WriteTransaction,
    after: WriteTransaction,
    pages_before: PageManager,
    pages_copied: PageManager,
    pages_below: PageManager,
    pages_after: PageManager,
    oldest: Option<TransactionId>,
    path: Seq<Page>,
    level: int,
    key: Seq<u8>,
    value: Seq<u8>,
    page: PageMut,
    child: InsertionResult,
    result: InsertionResult,
)
    requires
        insertion_ready(before, pages_before, path, level, key, value),
        level + 1 < path.len(),
        node_copied(
            before,
            pages_before,
            copied,
            pages_copied,
            oldest,
            path,
            level,
            page.page_id(),
        ),
        page.bytes() == path[level].bytes(),
        insertion_effect(
            copied,
            below,
            pages_copied,
            pages_below,
            oldest,
            path,
            level + 1,
            key,
            value,
        ),
        level_stored(copied, below, pages_copied, path, level + 1, key, value, child@),
        branch_written(
            below,
            after,
            pages_below,
            pages_after,
            oldest,
            page,
            child_index(branch_children(page.bytes()), key),
            child,
            result,
        ),
    ensures
        level_stored(before, after, pages_before, path, level, key, value, result@),
{
    let size = pages_before.io().size() as nat;
    let new_id = page.page_id();
    let slots = before.slots();
    let new = page_at(after, new_id);
    assert(path_step_ok(path, level, key, size));
    assert(copied.slots().contains_key(new_id));
    assert(slots_below(slots, copied.slots(), below.slots(), path, level, new_id));
    assert forall|file: Pages, checksum: u128, low: Low, high: High| #[trigger]
        node_stores(
            file,
            slots,
            after.slots(),
            path,
            level,
            key,
            value,
            size,
            result@,
            checksum,
            low,
            high,
        ) by {
        assert forall|c: u128, l: Low, h: High| #[trigger]
            node_stores(
                file,
                copied.slots(),
                below.slots(),
                path,
                level + 1,
                key,
                value,
                size,
                child@,
                c,
                l,
                h,
            ) by {}
        if result.split is None {
            lemma_branch_node_stored(
                file,
                slots,
                copied.slots(),
                below.slots(),
                path,
                level,
                key,
                value,
                size,
                child@,
                new,
                checksum,
                low,
                high,
            );
        } else {
            lemma_branch_node_split(
                file,
                slots,
                copied.slots(),
                below.slots(),
                path,
                level,
                key,
                value,
                size,
                child@,
                new,
                page_at(after, result.split->0.right_page_id),
                checksum,
                low,
                high,
            );
        }
    }
}

/// Storing a pair below the node at `level` of a path, as it begins.
pub open spec fn insertion_at(
    transaction: WriteTransaction,
    pages: PageManager,
    oldest: Option<TransactionId>,
    path: Seq<Page>,
    level: int,
    key: Seq<u8>,
    value: Seq<u8>,
) -> Insertion {
    Insertion {
        allocator: pages.allocator(),
        oldest,
        slots: transaction.slots(),
        path,
        level,
        key,
        value,
    }
}

/// Storing a pair in the leaf at the end of a path, as it concerns the pages that are written.
proof fn lemma_leaf_page_written(
    before: WriteTransaction,
    copied: WriteTransaction,
    after: WriteTransaction,
    pages_before: PageManager,
    pages_copied: PageManager,
    pages_after: PageManager,
    oldest: Option<TransactionId>,
    path: Seq<Page>,
    level: int,
    key: Seq<u8>,
    value: Seq<u8>,
    page: PageMut,
    result: InsertionResult,
)
    requires
        insertion_ready(before, pages_before, path, level, key, value),
        level == path.len() - 1,
        node_copied(
            before,
            pages_before,
            copied,
            pages_copied,
            oldest,
            path,
            level,
            page.page_id(),
        ),
        page.bytes() == path[level].bytes(),
        leaf_written(
            copied,
            after,
            pages_copied,
            pages_after,
            oldest,
            page,
            key,
            value,
            result,
        ),
    ensures
        ({
            let insertion = insertion_at(before, pages_before, oldest, path, level, key, value);
            &&& insertion.written(after.slots())
            &&& result@ == insertion.replacement(level, after.slots())
        }),
{
    let insertion = insertion_at(before, pages_before, oldest, path, level, key, value);
    let page_id = path[level].page_id();
    assert(path_step_ok(path, level, key, pages_before.io().size() as nat));
    reveal_with_fuel(passed_up, 2);
    reveal_with_fuel(clean_list, 2);
    reveal_with_fuel(splits, 2);
    lemma_takes_shift(
        pages_before.allocator(),
        pages_copied.allocator(),
        taken_count(before.slots(), page_id),
        oldest,
    );
    assert(insertion.copy_id(level) == page.page_id());
    if result.split is Some {
        assert(insertion.right_id(level) == result.split->0.right_page_id);
    }
    assert(insertion.holds(level, after.slots()));
}

/// Entering what became of the child into the node at `level`, as it concerns the pages that are
/// written.
proof fn lemma_branch_page_written(
    before: WriteTransaction,
    copied: WriteTransaction,
    below: WriteTransaction,
    after: WriteTransaction,
    pages_before: PageManager,
    pages_copied: PageManager,
    pages_below: PageManager,
    pages_after: PageManager,
    oldest: Option<TransactionId>,
    path: Seq<Page>,
    level: int,
    key: Seq<u8>,
    value: Seq<u8>,
    page: PageMut,
    child: InsertionResult,
    result: InsertionResult,
)
    requires
        insertion_ready(before, pages_before, path, level, key, value),
        level + 1 < path.len(),
        node_copied(
            before,
            pages_before,
            copied,
            pages_copied,
            oldest,
            path,
            level,
            page.page_id(),
        ),
        page.bytes() == path[level].bytes(),
        insertion_effect(
            copied,
            below,
            pages_copied,
            pages_below,
            oldest,
            path,
            level + 1,
            key,
            value,
        ),
        ({
            let insertion = insertion_at(
                copied,
                pages_copied,
                oldest,
                path,
                level + 1,
                key,
                value,
            );
            &&& insertion.written(below.slots())
            &&& child@ == insertion.replacement(level + 1, below.slots())
        }),
        branch_written(
            below,
            after,
            pages_below,
            pages_after,
            oldest,
            page,
            child_index(branch_children(page.bytes()), key),
            child,
            result,
        ),
    ensures
        ({
            let insertion = insertion_at(before, pages_before, oldest, path, level, key, value);
            &&& insertion.written(after.slots())
            &&& result@ == insertion.replacement(level, after.slots())
        }),
{
    let insertion = insertion_at(before, pages_before, oldest, path, level, key, value);
    let new_id = page.page_id();
    let page_id = path[level].page_id();
    let inner = insertion_below(insertion, pages_copied.allocator(), new_id);
    let first_count = taken_count(before.slots(), page_id);
    let rest = pages_taken(path, level + 1, copied.slots(), key, value);
    assert(path_step_ok(path, level, key, pages_before.io().size() as nat));
    assert(inner == insertion_at(copied, pages_copied, oldest, path, level + 1, key, value));
    lemma_takes_shift(
        pages_before.allocator(),
        pages_copied.allocator(),
        first_count,
        oldest,
    );
    lemma_below_ids(insertion, pages_copied.allocator(), new_id);
    assert(copied.slots().contains_key(new_id));
    assert(below.slots()[new_id] is CheckedOut);
    assert forall|p: PageId| #[trigger]
        below.slots().contains_key(p) && below.slots()[p] is Available implies
        after.slots().contains_key(p) && after.slots()[p] == below.slots()[p] by {
        assert(p != new_id);
    }
    lemma_written_kept(inner, below.slots(), after.slots());
    assert(inner.replacement(level + 1, after.slots()) == child@);
    assert(insertion.replacement(level + 1, after.slots()) == child@);
    lemma_clean_list_below(path, level, before.slots(), new_id);
    lemma_hands_out_twice(
        pages_before.allocator(),
        pages_copied.allocator(),
        pages_below.allocator(),
        taken(before.slots(), page_id, new_id),
        below.slots().dom().difference(copied.slots().dom()),
        first_count,
        rest,
        oldest,
    );
    lemma_takes_shift(
        pages_before.allocator(),
        pages_below.allocator(),
        first_count + rest,
        oldest,
    );
    assert(insertion.copy_id(level) == new_id);
    assert(passed_up(path, level + 1, key, value) == match child.split {
        Some(split) => Some(split.separator_key@),
        None => None,
    });
    assert(passed_up(path, level, key, value) is Some == result.split is Some);
    if result.split is Some {
        assert(insertion.right_id(level) == result.split->0.right_page_id);
    } else if child.split is None {
        let new = page_at(after, new_id);
        lemma_child_bounds(branch_children(page.bytes()), key, None, None);
        assert(branch_children(new.bytes()).len() == branch_children(page.bytes()).len());
        assert(branch_count(new.bytes()) == branch_count(page.bytes()));
    }
    assert(insertion.holds(level, after.slots()));
    assert forall|j: int| level <= j < path.len() implies #[trigger] insertion.holds(
        j,
        after.slots(),
    ) by {
        if j > level {
            assert(inner.holds(j, after.slots()));
        }
    }
}

/// What has to hold before a pair is stored in a transaction's tree, given the path to its leaf: it
/// can be stored below the root, and there is room for a new root.
pub open spec fn insert_ready(
    transaction: WriteTransaction,
    pages: PageManager,
    path: Seq<Page>,
    key: Seq<u8>,
    value: Seq<u8>,
) -> bool {
    &&& path.len() > 0
    &&& path[0].page_id() == transaction.root()
    &&& transaction.works_on(pages)
    &&& path_ok(path, key, pages.io().size() as nat)
    &&& path_current(path, 0, transaction.slots())
    &&& can_store(pages, path, key, value)
}

/// Whether a new root has room for the separator of the two halves of the old one.
pub open spec fn new_root_fits(
    path: Seq<Page>,
    key: Seq<u8>,
    value: Seq<u8>,
    size: nat,
) -> bool {
    passed_up(path, 0, key, value) matches Some(separator) ==> 24 + 2 * 40 + separator.len() <= size
}

/// A pair that the leaf it belongs to has room for can be stored, as long as the pages of the path are in
/// use and there are numbers for new pages.
pub proof fn law_pair_that_fits_can_be_stored(
    pages: PageManager,
    path: Seq<Page>,
    key: Seq<u8>,
    value: Seq<u8>,
)
    requires
        path.len() > 0,
        path_ok(path, key, pages.io().size() as nat),
        pages.allocator().retains(path_ids(path, 0), u64::MAX),
        key.len() + value.len() <= usize::MAX,
        pages.allocator().next() + 2 * path.len() + 1 < u64::MAX,
        ({
            let leaf = path.last().bytes();
            u64_at(leaf, 16) - (24 + 32 * u64_at(leaf, 8)) >= 32 + key.len() + value.len()
        }),
    ensures
        can_store(pages, path, key, value),
{
    assert(path_step_ok(path, path.len() - 1, key, pages.io().size() as nat));
    law_leaf_room_is_counted(path.last().bytes(), key.len(), value.len());
    lemma_room_above(path, 0, key, value, pages.io().size() as nat);
}

/// The first insertion of a transaction, into a leaf that has room, copies the nodes of the path and no
/// other page: it takes one page for each, the new root is the first of them, and the pages of the path
/// are to be freed.
pub proof fn law_first_insertion_copies_the_path(
    before: WriteTransaction,
    after: WriteTransaction,
    pages_before: PageManager,
    pages_after: PageManager,
    oldest: Option<TransactionId>,
    path: Seq<Page>,
    key: Seq<u8>,
    value: Seq<u8>,
)
    requires
        path.len() > 0,
        path_ok(path, key, pages_before.io().size() as nat),
        before.slots() == Map::<PageId, DirtyPageSlot>::empty(),
        before.freed() == Seq::<PageId>::empty(),
        insert_effect(before, after, pages_before, pages_after, oldest, path, key, value),
        insert_written(before, after, pages_before, oldest, path, key, value),
        ({
            let leaf = path.last().bytes();
            u64_at(leaf, 16) - (24 + 32 * u64_at(leaf, 8)) >= 32 + key.len() + value.len()
        }),
    ensures
        takes(pages_before.allocator(), pages_after.allocator(), path.len(), oldest),
        after.root() == pages_before.allocator().nth_page(0, oldest),
        after.freed().len() == path.len(),
        forall|i: int| 0 <= i < path.len() ==> #[trigger] after.freed()[i] == path[i].page_id(),
        forall|i: int|
            0 <= i < path.len() ==> after.slots().contains_key(
                #[trigger] pages_before.allocator().nth_page(i, oldest),
            ),
{
    let slots = before.slots();
    let size = pages_before.io().size() as nat;
    assert(path_step_ok(path, path.len() - 1, key, size));
    law_leaf_room_is_counted(path.last().bytes(), key.len(), value.len());
    lemma_all_clean(path, 0, slots);
    lemma_no_splits(path, 0, key, value);
    lemma_room_above(path, 0, key, value, size);
    assert forall|i: int| 0 <= i < path.len() implies #[trigger] after.freed()[i]
        == path[i].page_id() by {
        assert(clean_list(path, 0, slots)[i] == path[0 + i].page_id());
    }
    assert forall|i: int| 0 <= i < path.len() implies after.slots().contains_key(
        #[trigger] pages_before.allocator().nth_page(i, oldest),
    ) by {
        assert(pages_before.allocator().first_pages(path.len(), oldest).contains(
            pages_before.allocator().nth_page(i, oldest),
        ));
    }
}

proof fn lemma_no_splits(path: Seq<Page>, level: int, key: Seq<u8>, value: Seq<u8>)
    requires
        0 <= level <= path.len(),
        path.len() > 0,
        leaf_fits(path.last().bytes(), key.len(), value.len()),
    ensures
        splits(path, level, key, value) == 0,
    decreases path.len() - level,
{
    if level < path.len() {
        lemma_no_splits(path, level + 1, key, value);
        lemma_room_above(path, level, key, value, 0);
    }
}

/// Whether the node at `level` of a path can take what it is given: the pair, if it is the leaf, else the
/// separator that is passed up to it, if one is. It has room for it, or what it holds with it can be laid
/// out on two pages.
pub open spec fn takes_it(
    path: Seq<Page>,
    level: int,
    key: Seq<u8>,
    value: Seq<u8>,
    size: nat,
) -> bool {
    let page = path[level].bytes();
    if level + 1 == path.len() {
        let pairs = upsert(leaf_pairs(page), key, value);
        let mid = pairs.len() as int / 2;
        ||| u64_at(page, 16) - (24 + 32 * u64_at(page, 8)) >= 32 + key.len() + value.len()
        ||| {
            &&& pairs.len() >= 2
            &&& leaf_size(pairs.take(mid)) <= size
            &&& leaf_size(pairs.skip(mid)) <= size
        }
    } else {
        match passed_up(path, level + 1, key, value) {
            None => true,
            Some(separator) => {
                let children = add_child(branch_children(page), separator, 0, 0);
                let mid = children.len() as int / 2;
                ||| u64_at(page, 16) - (24 + 40 * u64_at(page, 8)) >= 40 + separator.len()
                ||| {
                    &&& branch_size(children.take(mid)) <= size
                    &&& branch_size(children.skip(mid)) <= size
                }
            },
        }
    }
}

/// A pair is refused only if a node of the path cannot take what it is given, or a new root cannot hold
/// its separator, or a page of the path is not in use, or there are no numbers left for pages.
pub proof fn law_pair_is_refused_for_a_reason(
    pages: PageManager,
    path: Seq<Page>,
    key: Seq<u8>,
    value: Seq<u8>,
)
    requires
        path.len() > 0,
        path_ok(path, key, pages.io().size() as nat),
        !can_store(pages, path, key, value),
    ensures
        ({
            let size = pages.io().size() as nat;
            ||| exists|level: int|
                0 <= level < path.len() && !#[trigger] takes_it(path, level, key, value, size)
            ||| passed_up(path, 0, key, value) matches Some(separator) && 104 + separator.len() > size
            ||| exists|i: int|
                0 <= i < path.len() && !pages.allocator().retains(
                    Set::empty().insert((#[trigger] path[i]).page_id()),
                    u64::MAX,
                )
            ||| key.len() + value.len() > usize::MAX
            ||| pages.allocator().next() + 2 * path.len() + 1 >= u64::MAX
        }),
{
    let size = pages.io().size() as nat;
    if forall|level: int| 0 <= level < path.len() ==> #[trigger] takes_it(path, level, key, value, size) {
        lemma_takes_all(path, 0, key, value, size);
    }
    if forall|i: int|
        0 <= i < path.len() ==> pages.allocator().retains(
            Set::empty().insert((#[trigger] path[i]).page_id()),
            u64::MAX,
        ) {
        lemma_retains_each(pages.allocator(), path);
    }
}

proof fn lemma_takes_all(path: Seq<Page>, level: int, key: Seq<u8>, value: Seq<u8>, size: nat)
    requires
        0 <= level < path.len(),
        path_ok(path, key, size),
        forall|i: int| 0 <= i < path.len() ==> #[trigger] takes_it(path, i, key, value, size),
    ensures
        admissible(path, level, key, value, size),
    decreases path.len() - level,
{
    let page = path[level].bytes();
    assert(takes_it(path, level, key, value, size));
    assert(path_step_ok(path, level, key, size));
    if level + 1 == path.len() {
        law_leaf_room_is_counted(page, key.len(), value.len());
    } else {
        lemma_takes_all(path, level + 1, key, value, size);
        if let Some(separator) = passed_up(path, level + 1, key, value) {
            law_branch_room_is_counted(page, separator.len());
        }
    }
}

/// Where the leaf has room, no node is split.
proof fn lemma_room_above(
    path: Seq<Page>,
    level: int,
    key: Seq<u8>,
    value: Seq<u8>,
    size: nat,
)
    requires
        0 <= level < path.len(),
        leaf_fits(path.last().bytes(), key.len(), value.len()),
    ensures
        passed_up(path, level, key, value) is None,
        admissible(path, level, key, value, size),
    decreases path.len() - level,
{
    if level + 1 < path.len() {
        lemma_room_above(path, level + 1, key, value, size);
    }
}

/// Whether a pair can be stored along a path: none of its pages is free, the pages have room for
/// the pair and a new root for the separator, and there are page ids left.
pub open spec fn can_store(
    pages: PageManager,
    path: Seq<Page>,
    key: Seq<u8>,
    value: Seq<u8>,
) -> bool {
    let size = pages.io().size() as nat;
    &&& pages.allocator().retains(path_ids(path, 0), u64::MAX)
    &&& admissible(path, 0, key, value, size)
    &&& new_root_fits(path, key, value, size)
    &&& key.len() + value.len() <= usize::MAX
    &&& pages.allocator().next() + 2 * path.len() + 1 < u64::MAX
}

/// What storing a pair may do to a transaction: it takes copies of the path, frees the pages that
/// it copied, takes new pages where nodes are split, and has a new root.
pub open spec fn insert_effect(
    before: WriteTransaction,
    after: WriteTransaction,
    pages_before: PageManager,
    pages_after: PageManager,
    oldest: Option<TransactionId>,
    path: Seq<Page>,
    key: Seq<u8>,
    value: Seq<u8>,
) -> bool {
    &&& after.id() == before.id()
    &&& after.is_failed() == before.is_failed()
    &&& after.freed() == before.freed() + clean_list(path, 0, before.slots())
    &&& forall|p: PageId| #[trigger]
        before.slots().contains_key(p) ==> after.slots().contains_key(p) && (!path_ids(
            path,
            0,
        ).contains(p) ==> after.slots()[p] == before.slots()[p])
    &&& forall|p: PageId| #[trigger]
        after.slots().contains_key(p) && (!before.slots().contains_key(p) || path_ids(
            path,
            0,
        ).contains(p)) ==> after.slots()[p] is Available
    &&& after.works_on(pages_after)
    &&& pages_after.same_file(pages_before)
    &&& hands_out(
        pages_before.allocator(),
        pages_after.allocator(),
        after.slots().dom().difference(before.slots().dom()),
        pages_taken_in_all(path, before.slots(), key, value),
        oldest,
    )
}

/// How many pages are taken to store a pair: those for the nodes of the path, and one for a new root
/// if the old one is split.
pub open spec fn pages_taken_in_all(
    path: Seq<Page>,
    slots: Slots,
    key: Seq<u8>,
    value: Seq<u8>,
) -> nat {
    pages_taken(path, 0, slots, key, value) + if passed_up(path, 0, key, value) is Some {
        1nat
    } else {
        0
    }
}

/// What the pages that were taken to store a pair hold: those of the path what became of its nodes,
/// and a new root, if the old one was split, its two halves.
pub open spec fn insert_written(
    before: WriteTransaction,
    after: WriteTransaction,
    pages: PageManager,
    oldest: Option<TransactionId>,
    path: Seq<Page>,
    key: Seq<u8>,
    value: Seq<u8>,
) -> bool {
    let insertion = insertion_at(before, pages, oldest, path, 0, key, value);
    let size = pages.io().size() as nat;
    let top = insertion.replacement(0, after.slots());
    &&& insertion.written(after.slots())
    &&& match top.split {
        None => after.root() == top.page_id && after.root_checksum() == top.checksum,
        Some(split) => {
            let root = page_bytes(after.slots(), after.root());
            &&& after.root() == pages.allocator().nth_page(
                pages_taken(path, 0, before.slots(), key, value) as int,
                oldest,
            )
            &&& has_page(after.slots(), after.root(), size)
            &&& after.root_checksum() == xxh3_128(root)
            &&& branch_wf(root)
            &&& branch_children(root) == halves(top, split)
            &&& branch_laid_out(root, zeros(size), halves(top, split))
        },
    }
}

/// How deep a tree of this depth is once the pair is stored: a tree grows at its root.
pub open spec fn depth_after(path: Seq<Page>, key: Seq<u8>, value: Seq<u8>, depth: nat) -> nat {
    if passed_up(path, 0, key, value) is Some {
        depth + 1
    } else {
        depth
    }
}

/// That the pair is stored in the transaction's tree, whatever the file holds: if the transaction
/// saw a tree, it sees one now that holds what the other held, with the pair; of the old one, the
/// pages that were copied are not part of it any more.
pub open spec fn insert_stores(
    file: Pages,
    before: WriteTransaction,
    after: WriteTransaction,
    pages: PageManager,
    path: Seq<Page>,
    key: Seq<u8>,
    value: Seq<u8>,
    depth: nat,
) -> bool {
    let size = pages.io().size() as nat;
    let old_tree = seen(file, before.slots());
    let new_tree = seen(file, after.slots());
    let new_depth = depth_after(path, key, value, depth);
    let fresh = after.slots().dom().difference(before.slots().dom());
    let old_pages = tree_pages(old_tree, before.root(), depth);
    (tree_ok(old_tree, before.root(), before.root_checksum(), depth, None, None, size)
        && path_read_from(path, 0, before.slots(), file) && pages.allocator().retains(
        old_pages,
        u64::MAX,
    )) ==> {
        &&& tree_ok(new_tree, after.root(), after.root_checksum(), new_depth, None, None, size)
        &&& forall|other: Seq<u8>| #[trigger]
            updated(
                tree_get(new_tree, after.root(), new_depth, other),
                tree_get(old_tree, before.root(), depth, other),
                other,
                key,
                value,
            )
        &&& tree_pages(new_tree, after.root(), new_depth).subset_of(
            old_pages.difference(clean_ids(path, 0, before.slots())).union(fresh),
        )
        &&& clean_ids(path, 0, before.slots()).subset_of(old_pages)
        &&& fresh.disjoint(old_pages)
    }
}

/// How deep a tree is can be read off a path through it.
proof fn lemma_path_depth(
    pages: Pages,
    path: Seq<Page>,
    level: int,
    key: Seq<u8>,
    checksum: u128,
    depth: nat,
    low: Low,
    high: High,
    size: nat,
)
    requires
        path_ok(path, key, size),
        0 <= level < path.len(),
        forall|j: int|
            level <= j < path.len() ==> pages[(#[trigger] path[j]).page_id()] == path[j].bytes(),
        tree_ok(pages, path[level].page_id(), checksum, depth, low, high, size),
        within(key, low, high),
    ensures
        depth == path.len() - 1 - level,
    decreases path.len() - level,
{
    assert(path_step_ok(path, level, key, size));
    assert(pages[path[level].page_id()] == path[level].bytes());
    if level + 1 < path.len() {
        let children = branch_children(path[level].bytes());
        let c = child_index(children, key);
        lemma_child_bounds(children, key, low, high);
        let child = children[c];
        lemma_path_depth(
            pages,
            path,
            level + 1,
            key,
            child.checksum,
            (depth - 1) as nat,
            child_low(children, c, low),
            child_high(children, c, high),
            size,
        );
    }
}

/// The tree under what became of the root, where it was not split.
proof fn lemma_root_replaced(
    before: WriteTransaction,
    below: WriteTransaction,
    after: WriteTransaction,
    pages: PageManager,
    pages_after: PageManager,
    oldest: Option<TransactionId>,
    path: Seq<Page>,
    key: Seq<u8>,
    value: Seq<u8>,
    result: InsertionResult,
    file: Pages,
    depth: nat,
)
    requires
        insert_ready(before, pages, path, key, value),
        insertion_effect(before, below, pages, pages_after, oldest, path, 0, key, value),
        level_stored(before, below, pages, path, 0, key, value, result@),
        result.split is None,
        after.slots() == below.slots(),
        after.root() == result.replacement_page_id,
        after.root_checksum() == result.replacement_page_checksum,
    ensures
        insert_stores(file, before, after, pages, path, key, value, depth),
{
    let size = pages.io().size() as nat;
    let old_tree = seen(file, before.slots());
    let new_tree = seen(file, after.slots());
    let old_pages = tree_pages(old_tree, before.root(), depth);
    let fresh = after.slots().dom().difference(before.slots().dom());
    let checksum = before.root_checksum();
    if tree_ok(old_tree, before.root(), checksum, depth, None, None, size) && path_read_from(
        path,
        0,
        before.slots(),
        file,
    ) && pages.allocator().retains(old_pages, u64::MAX) {
        lemma_root_ready(before, pages, path, key, value, file, depth);
        assert(node_stores(
            file,
            before.slots(),
            below.slots(),
            path,
            0,
            key,
            value,
            size,
            result@,
            checksum,
            None,
            None,
        ));
        assert forall|other: Seq<u8>| #[trigger]
            updated(
                tree_get(new_tree, after.root(), depth, other),
                tree_get(old_tree, before.root(), depth, other),
                other,
                key,
                value,
            ) by {
            assert(updated(
                replacement_get(new_tree, result@, depth, other),
                tree_get(old_tree, before.root(), depth, other),
                other,
                key,
                value,
            ));
        }
    }
}

/// What is known of the root before the pair is stored.
proof fn lemma_root_ready(
    before: WriteTransaction,
    pages: PageManager,
    path: Seq<Page>,
    key: Seq<u8>,
    value: Seq<u8>,
    file: Pages,
    depth: nat,
)
    requires
        insert_ready(before, pages, path, key, value),
        tree_ok(
            seen(file, before.slots()),
            before.root(),
            before.root_checksum(),
            depth,
            None,
            None,
            pages.io().size() as nat,
        ),
        path_read_from(path, 0, before.slots(), file),
    ensures
        depth == path.len() - 1,
        node_ready(
            file,
            before.slots(),
            path,
            0,
            key,
            pages.io().size() as nat,
            before.root_checksum(),
            None,
            None,
        ),
{
    let size = pages.io().size() as nat;
    let old_tree = seen(file, before.slots());
    assert forall|j: int| 0 <= j < path.len() implies old_tree[(#[trigger] path[j]).page_id()]
        == path[j].bytes() by {
        lemma_path_seen(file, before.slots(), path, 0, j);
    }
    lemma_path_depth(
        old_tree,
        path,
        0,
        key,
        before.root_checksum(),
        depth,
        None,
        None,
        size,
    );
}

/// The tree under a new root.
proof fn lemma_root_split(
    before: WriteTransaction,
    below: WriteTransaction,
    after: WriteTransaction,
    pages: PageManager,
    pages_below: PageManager,
    oldest: Option<TransactionId>,
    path: Seq<Page>,
    key: Seq<u8>,
    value: Seq<u8>,
    result: InsertionResult,
    root: PageMut,
    file: Pages,
    depth: nat,
)
    requires
        insert_ready(before, pages, path, key, value),
        insertion_effect(before, below, pages, pages_below, oldest, path, 0, key, value),
        level_stored(before, below, pages, path, 0, key, value, result@),
        result@.split is Some,
        !below.slots().contains_key(root.page_id()),
        !tree_pages(
            seen(file, before.slots()),
            before.root(),
            depth,
        ).contains(root.page_id()) || !pages.allocator().retains(
            tree_pages(seen(file, before.slots()), before.root(), depth),
            u64::MAX,
        ),
        after.slots() == below.slots().insert(
            root.page_id(),
            DirtyPageSlot::Available(root),
        ),
        after.root() == root.page_id(),
        after.root_checksum() == xxh3_128(root.bytes()),
        root.bytes().len() == pages.io().size(),
        branch_wf(root.bytes()),
        branch_children(root.bytes()) == first_key_dropped(halves(result@, result@.split->0)),
    ensures
        insert_stores(file, before, after, pages, path, key, value, depth),
{
    let size = pages.io().size() as nat;
    let old_tree = seen(file, before.slots());
    let below_tree = seen(file, below.slots());
    let new_tree = seen(file, after.slots());
    let old_pages = tree_pages(old_tree, before.root(), depth);
    let fresh_below = below.slots().dom().difference(before.slots().dom());
    let fresh = after.slots().dom().difference(before.slots().dom());
    let root_id = root.page_id();
    let checksum = before.root_checksum();
    if tree_ok(old_tree, before.root(), checksum, depth, None, None, size) && path_read_from(
        path,
        0,
        before.slots(),
        file,
    ) && pages.allocator().retains(old_pages, u64::MAX) {
        lemma_root_ready(before, pages, path, key, value, file, depth);
        assert(node_stores(
            file,
            before.slots(),
            below.slots(),
            path,
            0,
            key,
            value,
            size,
            result@,
            checksum,
            None,
            None,
        ));
        assert(!before.slots().contains_key(root_id)) by {
            if before.slots().contains_key(root_id) {
                assert(below.slots().contains_key(root_id));
            }
        }
        assert(fresh =~= fresh_below.insert(root_id));
        assert(new_tree[root_id] == root.bytes());
        assert(changed_only(below_tree, new_tree, Set::empty().insert(root_id)));
        lemma_new_root(
            below_tree,
            new_tree,
            result@,
            result@.split->0,
            depth,
            size,
            root_id,
        );
        assert forall|other: Seq<u8>| #[trigger]
            updated(
                tree_get(new_tree, root_id, depth + 1, other),
                tree_get(old_tree, before.root(), depth, other),
                other,
                key,
                value,
            ) by {
            assert(updated(
                replacement_get(below_tree, result@, depth, other),
                tree_get(old_tree, before.root(), depth, other),
                other,
                key,
                value,
            ));
            assert(tree_get(new_tree, root_id, depth + 1, other) == replacement_get(
                below_tree,
                result@,
                depth,
                other,
            ));
        }
    }
}

/// A new root, as it concerns the transaction.
proof fn lemma_new_root_effect(
    before: WriteTransaction,
    below: WriteTransaction,
    after: WriteTransaction,
    pages_before: PageManager,
    pages_below: PageManager,
    pages_after: PageManager,
    oldest: Option<TransactionId>,
    path: Seq<Page>,
    key: Seq<u8>,
    value: Seq<u8>,
    root: PageMut,
)
    requires
        insertion_effect(before, below, pages_before, pages_below, oldest, path, 0, key, value),
        after.slots() == below.slots().insert(root.page_id(), DirtyPageSlot::Available(root)),
        !below.slots().contains_key(root.page_id()),
        !before.slots().contains_key(root.page_id()),
        root.bytes().len() == pages_after.io().size(),
        node_wf(root.bytes()),
        after.id() == below.id(),
        after.is_failed() == below.is_failed(),
        after.freed() == below.freed(),
        pages_after.same_file(pages_below),
        pages_after.io().size() <= usize::MAX,
        pages_after.allocator().retains(after.slots().dom(), u64::MAX),
        hands_out(
            pages_before.allocator(),
            pages_after.allocator(),
            after.slots().dom().difference(before.slots().dom()),
            pages_taken_in_all(path, before.slots(), key, value),
            oldest,
        ),
    ensures
        insert_effect(before, after, pages_before, pages_after, oldest, path, key, value),
{
    assert forall|p: PageId| #[trigger] before.slots().contains_key(
        p,
    ) implies after.slots().contains_key(p) && (!path_ids(path, 0).contains(p)
        ==> after.slots()[p] == before.slots()[p]) by {
        assert(below.slots().contains_key(p));
    }
    assert forall|p: PageId| #[trigger] after.slots().contains_key(p) && (
    !before.slots().contains_key(p) || path_ids(
        path,
        0,
    ).contains(p)) implies after.slots()[p] is Available by {
        if p != root.page_id() {
            assert(below.slots().contains_key(p));
        }
    }
    assert forall|p: PageId| #[trigger]
        after.slots().contains_key(p) && after.slots()[p] is Available implies {
        let page = after.slots()[p]->Available_0;
        &&& page.page_id() == p
        &&& page.bytes().len() == pages_after.io().size()
        &&& after.is_failed() || node_wf(page.bytes())
    } by {
        if p != root.page_id() {
            assert(below.slots().contains_key(p));
        }
    }
}

/// Pages are retained if each of them is.
proof fn lemma_retains_each(allocator: PageAllocator, path: Seq<Page>)
    requires
        forall|j: int|
            0 <= j < path.len() ==> allocator.retains(
                Set::empty().insert((#[trigger] path[j]).page_id()),
                u64::MAX,
            ),
    ensures
        allocator.retains(path_ids(path, 0), u64::MAX),
{
    let all = path_ids(path, 0);
    assert forall|p: PageId| #[trigger] all.contains(p) implies p < allocator.next() by {
        let j = choose|j: int| 0 <= j < path.len() && (#[trigger] path[j]).page_id() == p;
        assert(Set::<PageId>::empty().insert(path[j].page_id()).contains(p));
    }
    assert forall|i: int|
        0 <= i < allocator.freed().len() && all.contains(
            (#[trigger] allocator.freed()[i]).page_id,
        ) implies allocator.freed()[i].transaction_id > u64::MAX by {
        let p = allocator.freed()[i].page_id;
        let j = choose|j: int| 0 <= j < path.len() && (#[trigger] path[j]).page_id() == p;
        assert(Set::<PageId>::empty().insert(path[j].page_id()).contains(p));
    }
}

/// The tree. Its nodes are pages; this holds what is done to them.
pub struct Tree;

impl Tree {
    /// Stores a pair in a leaf that the transaction works on, and splits the leaf where it has no
    /// room.
    fn insert_into_leaf(
        transaction: &mut WriteTransaction,
        pages: &mut PageManager,
        oldest: Option<TransactionId>,
        page: PageMut,
        key: &[u8],
        value: &[u8],
    ) -> (r: Result<InsertionResult>)
        requires
            old(transaction).works_on(*old(pages)),
            old(transaction).slots().contains_key(page.page_id()),
            old(transaction).slots()[page.page_id()] is CheckedOut,
            page.bytes().len() == old(pages).io().size(),
            leaf_wf(page.bytes()),
            key@.len() + value@.len() <= usize::MAX,
            !leaf_fits(page.bytes(), key@.len(), value@.len()) ==> leaf_halves_fit(
                page.bytes(),
                key@,
                value@,
                old(pages).io().size() as nat,
            ) && old(pages).allocator().next() < u64::MAX,
        ensures
            r is Ok,
            leaf_written(
                *old(transaction),
                *final(transaction),
                *old(pages),
                *final(pages),
                oldest,
                page,
                key@,
                value@,
                r->Ok_0,
            ),
    {
        let ghost dirty = transaction.slots().dom();
        let page_id = page.id();
        let page_size = page.data().len();
        let mut leaf_mutator = LeafPageMutator::from_page(page.into_data());
        let fits = match leaf_mutator.fits(key, value) {
            Ok(fits) => fits,
            Err(e) => return Err(e),
        };
        if fits {
            match leaf_mutator.insert(key, value) {
                Ok(()) => {},
                Err(e) => return Err(e),
            }
            let data = leaf_mutator.into_page();
            let checksum = checksum_page(data.as_slice());
            transaction.return_page(PageMut::with_data(page_id, data));
            proof {
                assert(transaction.slots().dom() =~= dirty);
            }
            return Ok(
                InsertionResult {
                    replacement_page_id: page_id,
                    replacement_page_checksum: checksum,
                    split: None,
                },
            );
        }
        let right_page = transaction.allocate_page(pages, oldest);
        let right_page_id = right_page.id();
        let mut right_data = right_page.into_data();
        let mut left_scratch: Vec<u8> = vec![0; page_size];
        assert(left_scratch@ =~= zeros(page_size as nat));
        let data = leaf_mutator.into_page();
        let mut leaf_builder = match LeafBuilder::from_page(data.as_slice()) {
            Ok(leaf_builder) => leaf_builder,
            Err(e) => return Err(e),
        };
        leaf_builder.insert(key, value);
        proof {
            lemma_upsert(leaf_pairs(page.bytes()), key@, value@);
        }
        let separator_key = leaf_builder.build_split_pages(&mut left_scratch, &mut right_data);
        let left_page_checksum = checksum_page(left_scratch.as_slice());
        let right_page_checksum = checksum_page(right_data.as_slice());
        transaction.return_page(PageMut::with_data(page_id, left_scratch));
        transaction.return_page(PageMut::with_data(right_page_id, right_data));
        proof {
            assert(transaction.slots().dom() =~= dirty.insert(right_page_id));
            assert(transaction.slots() =~= old(transaction).slots().insert(
                page_id,
                transaction.slots()[page_id],
            ).insert(right_page_id, transaction.slots()[right_page_id]));
        }
        Ok(
            InsertionResult {
                replacement_page_id: page_id,
                replacement_page_checksum: left_page_checksum,
                split: Some(PageSplit { separator_key, right_page_id, right_page_checksum }),
            },
        )
    }

    /// Enters what became of a child into a branch page that the transaction works on, and splits
    /// the page where it has no room.
    fn update_branch(
        transaction: &mut WriteTransaction,
        pages: &mut PageManager,
        oldest: Option<TransactionId>,
        page: PageMut,
        child_index: usize,
        insertion_result: InsertionResult,
    ) -> (r: Result<InsertionResult>)
        requires
            old(transaction).works_on(*old(pages)),
            old(transaction).slots().contains_key(page.page_id()),
            old(transaction).slots()[page.page_id()] is CheckedOut,
            page.bytes().len() == old(pages).io().size(),
            branch_wf(page.bytes()),
            child_index < branch_children(page.bytes()).len(),
            insertion_result.split matches Some(split) ==> (!branch_fits(
                page.bytes(),
                split.separator_key@.len(),
            ) ==> branch_halves_fit(
                page.bytes(),
                split.separator_key@,
                old(pages).io().size() as nat,
            ) && old(pages).allocator().next() < u64::MAX),
        ensures
            r is Ok,
            branch_written(
                *old(transaction),
                *final(transaction),
                *old(pages),
                *final(pages),
                oldest,
                page,
                child_index as int,
                insertion_result,
                r->Ok_0,
            ),
    {
        let ghost dirty = transaction.slots().dom();
        let ghost children = branch_children(page.bytes());
        let page_id = page.id();
        let page_size = page.data().len();
        let mut branch_mutator = BranchPageMutator::from_page(page.into_data());
        match branch_mutator.set_child_at_index(
            child_index,
            insertion_result.replacement_page_id,
            insertion_result.replacement_page_checksum,
        ) {
            Ok(()) => {},
            Err(e) => return Err(e),
        }
        proof {
            lemma_set_child_separators(
                children,
                child_index as int,
                insertion_result.replacement_page_id,
                insertion_result.replacement_page_checksum,
            );
            assert(branch_children(branch_mutator.page()).len() == branch_count(
                branch_mutator.page(),
            ));
            assert(children.len() == branch_count(page.bytes()));
        }
        let child_split = match insertion_result.split {
            None => {
                let data = branch_mutator.into_page();
                let checksum = checksum_page(data.as_slice());
                transaction.return_page(PageMut::with_data(page_id, data));
                proof {
                    assert(transaction.slots().dom() =~= dirty);
                }
                return Ok(
                    InsertionResult {
                        replacement_page_id: page_id,
                        replacement_page_checksum: checksum,
                        split: None,
                    },
                );
            },
            Some(child_split) => child_split,
        };
        let fits = match branch_mutator.fits(child_split.separator_key.as_slice()) {
            Ok(fits) => fits,
            Err(e) => return Err(e),
        };
        if fits {
            match branch_mutator.insert(
                child_split.separator_key.as_slice(),
                child_split.right_page_id,
                child_split.right_page_checksum,
            ) {
                Ok(()) => {},
                Err(e) => return Err(e),
            }
            let data = branch_mutator.into_page();
            let checksum = checksum_page(data.as_slice());
            transaction.return_page(PageMut::with_data(page_id, data));
            proof {
                assert(transaction.slots().dom() =~= dirty);
            }
            return Ok(
                InsertionResult {
                    replacement_page_id: page_id,
                    replacement_page_checksum: checksum,
                    split: None,
                },
            );
        }
        let right_page = transaction.allocate_page(pages, oldest);
        let right_page_id = right_page.id();
        let mut right_data = right_page.into_data();
        let mut left_scratch: Vec<u8> = vec![0; page_size];
        assert(left_scratch@ =~= zeros(page_size as nat));
        let data = branch_mutator.into_page();
        let mut branch_builder = match BranchBuilder::from_page(data.as_slice()) {
            Ok(branch_builder) => branch_builder,
            Err(e) => return Err(e),
        };
        proof {
            lemma_halves_same_keys(
                children,
                child_index as int,
                insertion_result.replacement_page_id,
                insertion_result.replacement_page_checksum,
                child_split.separator_key@,
                child_split.right_page_id,
                child_split.right_page_checksum,
            );
            lemma_add_child_sorted(
                branch_builder.children(),
                child_split.separator_key@,
                child_split.right_page_id,
                child_split.right_page_checksum,
            );
        }
        branch_builder.insert(
            child_split.separator_key.as_slice(),
            child_split.right_page_id,
            child_split.right_page_checksum,
        );
        let separator_key = branch_builder.build_split_pages(&mut left_scratch, &mut right_data);
        let right_page_checksum = checksum_page(right_data.as_slice());
        let left_page_checksum = checksum_page(left_scratch.as_slice());
        transaction.return_page(PageMut::with_data(page_id, left_scratch));
        transaction.return_page(PageMut::with_data(right_page_id, right_data));
        proof {
            assert(transaction.slots().dom() =~= dirty.insert(right_page_id));
            assert(transaction.slots() =~= old(transaction).slots().insert(
                page_id,
                transaction.slots()[page_id],
            ).insert(right_page_id, transaction.slots()[right_page_id]));
        }
        Ok(
            InsertionResult {
                replacement_page_id: page_id,
                replacement_page_checksum: left_page_checksum,
                split: Some(PageSplit { separator_key, right_page_id, right_page_checksum }),
            },
        )
    }

    /// Stores a pair below the node at `level` of the path to the leaf that it belongs to.
    pub fn insert_recursive(
        transaction: &mut WriteTransaction,
        pages: &mut PageManager,
        oldest: Option<TransactionId>,
        path: &Vec<Page>,
        level: usize,
        key: &[u8],
        value: &[u8],
    ) -> (r: Result<InsertionResult>)
        requires
            level < path.len(),
            insertion_ready(*old(transaction), *old(pages), path@, level as int, key@, value@),
        ensures
            r is Ok,
            insertion_effect(
                *old(transaction),
                *final(transaction),
                *old(pages),
                *final(pages),
                oldest,
                path@,
                level as int,
                key@,
                value@,
            ),
            level_stored(
                *old(transaction),
                *final(transaction),
                *old(pages),
                path@,
                level as int,
                key@,
                value@,
                r->Ok_0@,
            ),
            ({
                let insertion = insertion_at(
                    *old(transaction),
                    *old(pages),
                    oldest,
                    path@,
                    level as int,
                    key@,
                    value@,
                );
                &&& insertion.written(final(transaction).slots())
                &&& r->Ok_0@ == insertion.replacement(level as int, final(transaction).slots())
            }),
        decreases path@.len() - level,
    {
        let ghost before = *transaction;
        let ghost pages_before = *pages;
        let ghost page_id = path@[level as int].page_id();
        proof {
            assert(path_step_ok(path@, level as int, key@, pages.io().size() as nat));
            assert(path_ids(path@, level as int).contains(page_id));
        }
        let page = transaction.cow_page(pages, oldest, &path[level]);
        let ghost copied = *transaction;
        let ghost pages_copied = *pages;
        proof {
            lemma_node_copied(
                before,
                copied,
                pages_before,
                pages_copied,
                oldest,
                path@,
                level as int,
                key@,
                value@,
                page,
            );
        }
        match NodeKind::parse(page.data()) {
            Err(e) => Err(e),
            Ok(NodeKind::Leaf) => {
                assert(level + 1 == path@.len());
                let result = Self::insert_into_leaf(transaction, pages, oldest, page, key, value);
                proof {
                    lemma_leaf_level(
                        before,
                        copied,
                        *transaction,
                        pages_before,
                        pages_copied,
                        *pages,
                        oldest,
                        path@,
                        level as int,
                        key@,
                        value@,
                        page,
                        result->Ok_0,
                    );
                    lemma_leaf_page_written(
                        before,
                        copied,
                        *transaction,
                        pages_before,
                        pages_copied,
                        *pages,
                        oldest,
                        path@,
                        level as int,
                        key@,
                        value@,
                        page,
                        result->Ok_0,
                    );
                }
                result
            },
            Ok(NodeKind::Branch) => {
                assert(level + 1 < path.len());
                let new_page_id = page.id();
                let branch_mutator = BranchPageMutator::from_page(page.into_data());
                let child_index = match branch_mutator.child_page_for_key(key) {
                    Ok((child_index, _)) => child_index,
                    Err(e) => return Err(e),
                };
                let page = PageMut::with_data(new_page_id, branch_mutator.into_page());
                proof {
                    lemma_ready_below(
                        before,
                        copied,
                        pages_before,
                        pages_copied,
                        oldest,
                        path@,
                        level as int,
                        key@,
                        value@,
                        page.page_id(),
                    );
                }
                let insertion_result = match Self::insert_recursive(
                    transaction,
                    pages,
                    oldest,
                    path,
                    level + 1,
                    key,
                    value,
                ) {
                    Ok(insertion_result) => insertion_result,
                    Err(e) => return Err(e),
                };
                let ghost below = *transaction;
                let ghost pages_below = *pages;
                assert(copied.slots().contains_key(page.page_id()));
                proof {
                    lemma_pages_taken(path@, level + 1, copied.slots(), key@, value@);
                }
                let result = Self::update_branch(
                    transaction,
                    pages,
                    oldest,
                    page,
                    child_index,
                    insertion_result,
                );
                proof {
                    lemma_branch_effect(
                        before,
                        copied,
                        below,
                        *transaction,
                        pages_before,
                        pages_copied,
                        pages_below,
                        *pages,
                        oldest,
                        path@,
                        level as int,
                        key@,
                        value@,
                        page,
                        child_index as int,
                        insertion_result,
                        result->Ok_0,
                    );
                    lemma_branch_stores(
                        before,
                        copied,
                        below,
                        *transaction,
                        pages_before,
                        pages_copied,
                        pages_below,
                        *pages,
                        oldest,
                        path@,
                        level as int,
                        key@,
                        value@,
                        page,
                        insertion_result,
                        result->Ok_0,
                    );
                    lemma_branch_page_written(
                        before,
                        copied,
                        below,
                        *transaction,
                        pages_before,
                        pages_copied,
                        pages_below,
                        *pages,
                        oldest,
                        path@,
                        level as int,
                        key@,
                        value@,
                        page,
                        insertion_result,
                        result->Ok_0,
                    );
                }
                result
            },
        }
    }

    /// Stores a pair in the transaction's tree, given the path from the root to the leaf that the
    /// key belongs to.
    pub fn insert(
        transaction: &mut WriteTransaction,
        pages: &mut PageManager,
        oldest: Option<TransactionId>,
        path: &Vec<Page>,
        key: &[u8],
        value: &[u8],
    ) -> (r: Result<()>)
        requires
            insert_ready(*old(transaction), *old(pages), path@, key@, value@),
        ensures
            r is Ok,
            insert_effect(
                *old(transaction),
                *final(transaction),
                *old(pages),
                *final(pages),
                oldest,
                path@,
                key@,
                value@,
            ),
            insert_written(
                *old(transaction),
                *final(transaction),
                *old(pages),
                oldest,
                path@,
                key@,
                value@,
            ),
            forall|file: Pages, depth: nat| #[trigger]
                insert_stores(
                    file,
                    *old(transaction),
                    *final(transaction),
                    *old(pages),
                    path@,
                    key@,
                    value@,
                    depth,
                ),
    {
        let ghost before = *transaction;
        let ghost pages_before = *pages;
        let ghost count = pages_taken(path@, 0, before.slots(), key@, value@);
        let insertion_result = match Self::insert_recursive(
            transaction,
            pages,
            oldest,
            path,
            0,
            key,
            value,
        ) {
            Ok(insertion_result) => insertion_result,
            Err(e) => return Err(e),
        };
        let ghost below = *transaction;
        let ghost pages_below = *pages;
        let ghost fresh_below = below.slots().dom().difference(before.slots().dom());
        match &insertion_result.split {
            Some(split) => {
                let branch_builder = BranchBuilder::new_root(
                    insertion_result.replacement_page_id,
                    insertion_result.replacement_page_checksum,
                    split.separator_key.as_slice(),
                    split.right_page_id,
                    split.right_page_checksum,
                );
                proof {
                    lemma_pages_taken(path@, 0, before.slots(), key@, value@);
                }
                let new_root_page = transaction.allocate_page(pages, oldest);
                let new_root_id = new_root_page.id();
                let mut data = new_root_page.into_data();
                proof {
                    let children = branch_builder.children();
                    assert(children =~= halves(insertion_result@, insertion_result@.split->0));
                    assert(separators(children).len() == 1);
                    reveal_with_fuel(keys_size, 3);
                }
                branch_builder.build_page_at_buf(&mut data);
                let checksum = checksum_page(data.as_slice());
                let root = PageMut::with_data(new_root_id, data);
                transaction.return_page(root);
                transaction.set_root_page(new_root_id, checksum);
                proof {
                    let after = *transaction;
                    lemma_hands_out_twice(
                        pages_before.allocator(),
                        pages_below.allocator(),
                        pages.allocator(),
                        fresh_below,
                        Set::empty().insert(new_root_id),
                        count,
                        1,
                        oldest,
                    );
                    assert(!below.slots().contains_key(new_root_id));
                    assert(after.slots() =~= below.slots().insert(
                        new_root_id,
                        DirtyPageSlot::Available(root),
                    ));
                    assert(!before.slots().contains_key(new_root_id)) by {
                        if before.slots().contains_key(new_root_id) {
                            assert(below.slots().contains_key(new_root_id));
                        }
                    }
                    lemma_takes_shift(
                        pages_before.allocator(),
                        pages_below.allocator(),
                        count,
                        oldest,
                    );
                    lemma_written_kept(
                        insertion_at(before, pages_before, oldest, path@, 0, key@, value@),
                        below.slots(),
                        after.slots(),
                    );
                    assert(first_key_dropped(branch_builder.children())
                        =~= branch_builder.children());
                    let fresh = after.slots().dom().difference(before.slots().dom());
                    assert(fresh =~= fresh_below.union(Set::empty().insert(new_root_id)));
                    assert(after.slots().dom() =~= below.slots().dom().insert(new_root_id));
                    lemma_new_root_effect(
                        before,
                        below,
                        after,
                        pages_before,
                        pages_below,
                        *pages,
                        oldest,
                        path@,
                        key@,
                        value@,
                        root,
                    );
                    assert forall|file: Pages, depth: nat| #[trigger]
                        insert_stores(
                            file,
                            before,
                            after,
                            pages_before,
                            path@,
                            key@,
                            value@,
                            depth,
                        ) by {
                        let old_pages = tree_pages(
                            seen(file, before.slots()),
                            before.root(),
                            depth,
                        );
                        if pages_before.allocator().retains(old_pages, u64::MAX) {
                            assert(fresh.disjoint(old_pages));
                            assert(fresh.contains(new_root_id));
                        }
                        lemma_root_split(
                            before,
                            below,
                            after,
                            pages_before,
                            pages_below,
                            oldest,
                            path@,
                            key@,
                            value@,
                            insertion_result,
                            root,
                            file,
                            depth,
                        );
                    }
                }
            },
            None => {
                transaction.set_root_page(
                    insertion_result.replacement_page_id,
                    insertion_result.replacement_page_checksum,
                );
                proof {
                    assert forall|file: Pages, depth: nat| #[trigger]
                        insert_stores(
                            file,
                            before,
                            *transaction,
                            pages_before,
                            path@,
                            key@,
                            value@,
                            depth,
                        ) by {
                        lemma_root_replaced(
                            before,
                            below,
                            *transaction,
                            pages_before,
                            pages_below,
                            oldest,
                            path@,
                            key@,
                            value@,
                            insertion_result,
                            file,
                            depth,
                        );
                    }
                }
            },
        }
        Ok(())
    }

    /// Whether the pages of a path from `level` on have room for a pair, and the separator that is
    /// passed up if they do.
    fn check_room(
        path: &Vec<Page>,
        level: usize,
        key: &[u8],
        value: &[u8],
        page_size: usize,
    ) -> (r: (bool, Option<Vec<u8>>))
        requires
            level < path.len(),
            path_ok(path@, key@, page_size as nat),
            key@.len() + value@.len() <= usize::MAX,
        ensures
            r.0 == admissible(path@, level as int, key@, value@, page_size as nat),
            r.0 ==> passed_up(path@, level as int, key@, value@) == match r.1 {
                Some(separator) => Some(separator@),
                None => None,
            },
        decreases path@.len() - level,
    {
        let page = path[level].data();
        assert(path_step_ok(path@, level as int, key@, page_size as nat));
        if level + 1 == path.len() {
            if leaf_has_room(page, key.len(), value.len()) {
                return (true, None);
            }
            match LeafBuilder::from_page(page) {
                Err(_) => (false, None),
                Ok(mut leaf_builder) => {
                    leaf_builder.insert(key, value);
                    if !leaf_builder.halves_fit(page_size) {
                        return (false, None);
                    }
                    (true, Some(leaf_builder.separator_key()))
                },
            }
        } else {
            match Self::check_room(path, level + 1, key, value, page_size) {
                (false, _) => (false, None),
                (true, None) => (true, None),
                (true, Some(separator)) => {
                    if branch_has_room(page, separator.len()) {
                        return (true, None);
                    }
                    match BranchBuilder::from_page(page) {
                        Err(_) => (false, None),
                        Ok(mut branch_builder) => {
                            branch_builder.insert(separator.as_slice(), 0, 0);
                            if !branch_builder.halves_fit(page_size) {
                                return (false, None);
                            }
                            (true, Some(branch_builder.separator_key()))
                        },
                    }
                },
            }
        }
    }

    /// Whether a pair can be stored along a path.
    pub fn can_insert(pages: &PageManager, path: &Vec<Page>, key: &[u8], value: &[u8]) -> (r: bool)
        requires
            path@.len() > 0,
            path_ok(path@, key@, pages.io().size() as nat),
            pages.io().size() <= usize::MAX,
        ensures
            r == can_store(*pages, path@, key@, value@),
    {
        if key.len() > usize::MAX - value.len() {
            return false;
        }
        let page_size = pages.page_size() as usize;
        let next = pages.next_page_id();
        let levels = path.len();
        if (u64::MAX - next) / 2 <= levels as u64 {
            return false;
        }
        let mut i: usize = 0;
        while i < levels
            invariant
                i <= levels,
                levels == path@.len(),
                forall|j: int|
                    0 <= j < i ==> pages.allocator().retains(
                        Set::empty().insert((#[trigger] path@[j]).page_id()),
                        u64::MAX,
                    ),
            decreases levels - i,
        {
            if !pages.is_in_use(path[i].id()) {
                proof {
                    let id = path@[i as int].page_id();
                    if pages.allocator().retains(path_ids(path@, 0), u64::MAX) {
                        lemma_retains_fewer(
                            pages.allocator(),
                            path_ids(path@, 0),
                            Set::empty().insert(id),
                            u64::MAX,
                        );
                    }
                }
                return false;
            }
            i += 1;
        }
        proof {
            lemma_retains_each(pages.allocator(), path@);
        }
        match Self::check_room(path, 0, key, value, page_size) {
            (false, _) => false,
            (true, None) => true,
            (true, Some(separator)) => page_size >= 104 && separator.len() <= page_size - 104,
        }
    }
}

} // verus!
