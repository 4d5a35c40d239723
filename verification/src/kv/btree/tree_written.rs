//! Which pages storing a pair takes, and what they hold then.

use crate::kv::btree::branch_node::{
    branch_children, branch_count, branch_end, branch_laid_out, branch_wf, child_index,
    first_key_dropped,
};
use crate::kv::btree::leaf_node::{
    leaf_end, leaf_end_after, leaf_laid_out, leaf_pairs, leaf_wf,
};
use crate::kv::btree::tree_insert::Slots;
use crate::kv::btree::tree_model::{children_with, Replacement, SplitOff};
use crate::kv::btree::tree_path::{clean_list, copy_of, passed_up, path_ids};
use crate::kv::entries::upsert;
use crate::kv::pages::checksum::xxh3_128;
use crate::kv::pages::page::Page;
use crate::kv::pages::page_allocator::{takes, PageAllocator};
use crate::kv::pages::PageId;
use crate::kv::transactions::dirty_pages::DirtyPageSlot;
use crate::kv::transactions::TransactionId;
use vstd::prelude::*;

verus! {

/// How many nodes of a path from `level` on are split by storing the pair.
pub open spec fn splits(path: Seq<Page>, level: int, key: Seq<u8>, value: Seq<u8>) -> nat
    decreases path.len() - level,
{
    if level < 0 || level >= path.len() {
        0
    } else {
        splits(path, level + 1, key, value) + if passed_up(path, level, key, value) is Some {
            1nat
        } else {
            0
        }
    }
}

/// How many pages are taken to store the pair below the node at `level` of a path: one for each node
/// that has no copy yet, and one for each that is split.
pub open spec fn pages_taken(
    path: Seq<Page>,
    level: int,
    slots: Slots,
    key: Seq<u8>,
    value: Seq<u8>,
) -> nat {
    clean_list(path, level, slots).len() + splits(path, level, key, value)
}

/// At most two pages are taken for each node.
pub proof fn lemma_pages_taken(
    path: Seq<Page>,
    level: int,
    slots: Slots,
    key: Seq<u8>,
    value: Seq<u8>,
)
    requires
        0 <= level <= path.len(),
    ensures
        pages_taken(path, level, slots, key, value) <= 2 * (path.len() - level),
    decreases path.len() - level,
{
    if level < path.len() {
        lemma_pages_taken(path, level + 1, slots, key, value);
    }
}

/// A page of zeros.
pub open spec fn zeros(size: nat) -> Seq<u8> {
    Seq::new(size, |i: int| 0u8)
}

/// Whether a transaction has this page, and it is not being worked on.
pub open spec fn has_page(slots: Slots, page_id: PageId, size: nat) -> bool {
    &&& slots.contains_key(page_id)
    &&& slots[page_id] is Available
    &&& slots[page_id]->Available_0.page_id() == page_id
    &&& slots[page_id]->Available_0.bytes().len() == size
}

/// What a page of a transaction holds.
pub open spec fn page_bytes(slots: Slots, page_id: PageId) -> Seq<u8> {
    slots[page_id]->Available_0.bytes()
}

/// Storing a pair below the node at `level` of a path, with what it begins from: the pages that are
/// handed out, and those that the transaction has.
pub ghost struct Insertion {
    pub allocator: PageAllocator,
    pub oldest: Option<TransactionId>,
    pub slots: Slots,
    pub path: Seq<Page>,
    pub level: int,
    pub key: Seq<u8>,
    pub value: Seq<u8>,
}

impl Insertion {
    /// The page that the node at `j` is changed on.
    pub open spec fn copy_id(self, j: int) -> PageId {
        copy_of(self.path, self.level, self.slots, self.allocator, self.oldest, j)
    }

    /// The page that the upper half of the node at `j` goes to if it is split. Nodes are split from the
    /// bottom up, after all of them were copied.
    pub open spec fn right_id(self, j: int) -> PageId {
        self.allocator.nth_page(
            clean_list(self.path, self.level, self.slots).len() as int + splits(
                self.path,
                j + 1,
                self.key,
                self.value,
            ),
            self.oldest,
        )
    }

    /// What became of the node at `j`, given the pages that the transaction has then.
    pub open spec fn replacement(self, j: int, after: Slots) -> Replacement {
        Replacement {
            page_id: self.copy_id(j),
            checksum: xxh3_128(page_bytes(after, self.copy_id(j))),
            split: match passed_up(self.path, j, self.key, self.value) {
                None => None,
                Some(key) => Some(
                    SplitOff {
                        key,
                        page_id: self.right_id(j),
                        checksum: xxh3_128(page_bytes(after, self.right_id(j))),
                    },
                ),
            },
        }
    }

    /// Whether the copy of the node at `j`, and the page that was split off from it, hold what they
    /// should: a leaf its pairs and the new one, a branch its children with what became of the one
    /// below. A node that is split is laid out afresh on two pages, a half on each.
    pub open spec fn holds(self, j: int, after: Slots) -> bool {
        let page = self.path[j].bytes();
        let copy = page_bytes(after, self.copy_id(j));
        let right = page_bytes(after, self.right_id(j));
        let separator = passed_up(self.path, j, self.key, self.value);
        &&& has_page(after, self.copy_id(j), page.len())
        &&& separator is Some ==> has_page(after, self.right_id(j), page.len())
        &&& if j + 1 == self.path.len() {
            let pairs = upsert(leaf_pairs(page), self.key, self.value);
            let mid = pairs.len() as int / 2;
            &&& leaf_wf(copy)
            &&& if separator is None {
                &&& leaf_pairs(copy) == pairs
                &&& leaf_end(copy) == leaf_end_after(page, self.key, self.value)
            } else {
                &&& leaf_wf(right)
                &&& leaf_pairs(copy) == pairs.take(mid)
                &&& leaf_pairs(right) == pairs.skip(mid)
                &&& leaf_laid_out(copy, zeros(page.len()), pairs.take(mid))
                &&& leaf_laid_out(right, zeros(page.len()), pairs.skip(mid))
            }
        } else {
            let children = branch_children(page);
            let out = children_with(
                children,
                child_index(children, self.key),
                self.replacement(j + 1, after),
            );
            let mid = out.len() as int / 2;
            &&& branch_wf(copy)
            &&& if separator is None {
                &&& branch_children(copy) == out
                &&& branch_end(copy) == if branch_count(copy) == branch_count(page) {
                    branch_end(page) as int
                } else {
                    branch_end(page) - passed_up(
                        self.path,
                        j + 1,
                        self.key,
                        self.value,
                    )->0.len()
                }
            } else {
                &&& branch_wf(right)
                &&& branch_children(copy) == first_key_dropped(out.take(mid))
                &&& branch_children(right) == first_key_dropped(out.skip(mid))
                &&& branch_laid_out(copy, zeros(page.len()), out.take(mid))
                &&& branch_laid_out(right, zeros(page.len()), out.skip(mid))
            }
        }
    }

    /// Whether all nodes of the path from `level` on were written.
    pub open spec fn written(self, after: Slots) -> bool {
        forall|j: int| self.level <= j < self.path.len() ==> #[trigger] self.holds(j, after)
    }
}

/// A leaf that is split leaves its pairs and the new one on two pages, in their order and as evenly as
/// can be, and passes up the first key of the second page.
pub proof fn law_leaf_is_split_in_the_middle(insertion: Insertion, after: Slots)
    requires
        insertion.path.len() > 0,
        insertion.level <= insertion.path.len() - 1,
        insertion.written(after),
        passed_up(
            insertion.path,
            insertion.path.len() - 1,
            insertion.key,
            insertion.value,
        ) is Some,
    ensures
        ({
            let j = insertion.path.len() - 1;
            let leaf = insertion.path[j].bytes();
            let left = leaf_pairs(page_bytes(after, insertion.copy_id(j)));
            let right = leaf_pairs(page_bytes(after, insertion.right_id(j)));
            &&& left + right == upsert(leaf_pairs(leaf), insertion.key, insertion.value)
            &&& left.len() <= right.len() <= left.len() + 1
            &&& right.len() > 0 ==> passed_up(
                insertion.path,
                j,
                insertion.key,
                insertion.value,
            ) == Some(right[0].0)
        }),
{
    let j = insertion.path.len() - 1;
    assert(insertion.holds(j, after));
    let pairs = upsert(leaf_pairs(insertion.path[j].bytes()), insertion.key, insertion.value);
    let mid = pairs.len() as int / 2;
    assert(pairs.take(mid) + pairs.skip(mid) =~= pairs);
}

/// A branch page that is split leaves its children, with what became of the one below, on two pages, in
/// their order and as evenly as can be. It passes up the key of the first child of the second page, which
/// no longer holds it.
pub proof fn law_branch_is_split_in_the_middle(insertion: Insertion, after: Slots, j: int)
    requires
        0 <= insertion.level <= j,
        j + 1 < insertion.path.len(),
        insertion.written(after),
        passed_up(insertion.path, j, insertion.key, insertion.value) is Some,
    ensures
        ({
            let children = branch_children(insertion.path[j].bytes());
            let all = children_with(
                children,
                child_index(children, insertion.key),
                insertion.replacement(j + 1, after),
            );
            let left = branch_children(page_bytes(after, insertion.copy_id(j)));
            let right = branch_children(page_bytes(after, insertion.right_id(j)));
            &&& left.len() + right.len() == all.len()
            &&& left.len() <= right.len() <= left.len() + 1
            &&& forall|i: int|
                0 <= i < left.len() ==> {
                    &&& (#[trigger] left[i]).page_id == all[i].page_id
                    &&& left[i].checksum == all[i].checksum
                    &&& i > 0 ==> left[i].key == all[i].key
                }
            &&& forall|i: int|
                0 <= i < right.len() ==> {
                    &&& (#[trigger] right[i]).page_id == all[left.len() + i].page_id
                    &&& right[i].checksum == all[left.len() + i].checksum
                    &&& i > 0 ==> right[i].key == all[left.len() + i].key
                }
            &&& right.len() > 0 ==> right[0].key.len() == 0
        }),
{
    assert(insertion.holds(j, after));
}

/// What was written stays written while the pages that are not being worked on stay as they are.
pub proof fn lemma_written_kept(insertion: Insertion, a: Slots, b: Slots)
    requires
        0 <= insertion.level,
        insertion.written(a),
        forall|p: PageId| #[trigger]
            a.contains_key(p) && a[p] is Available ==> b.contains_key(p) && b[p] == a[p],
    ensures
        insertion.written(b),
        forall|j: int|
            insertion.level <= j < insertion.path.len() ==> #[trigger] insertion.replacement(j, b)
                == insertion.replacement(j, a),
{
    assert forall|j: int| insertion.level <= j < insertion.path.len() implies
        #[trigger] insertion.replacement(j, b) == insertion.replacement(j, a) by {
        assert(insertion.holds(j, a));
        assert(a.contains_key(insertion.copy_id(j)));
        if passed_up(insertion.path, j, insertion.key, insertion.value) is Some {
            assert(a.contains_key(insertion.right_id(j)));
        }
    }
    assert forall|j: int| insertion.level <= j < insertion.path.len() implies
        #[trigger] insertion.holds(j, b) by {
        assert(insertion.holds(j, a));
        assert(a.contains_key(insertion.copy_id(j)));
        if passed_up(insertion.path, j, insertion.key, insertion.value) is Some {
            assert(a.contains_key(insertion.right_id(j)));
        }
        if j + 1 < insertion.path.len() {
            assert(insertion.replacement(j + 1, b) == insertion.replacement(j + 1, a));
        }
    }
}

/// Storing the pair below the child of the node at `level`, once the node was copied to `new_id`.
pub open spec fn insertion_below(
    insertion: Insertion,
    copied: PageAllocator,
    new_id: PageId,
) -> Insertion {
    Insertion {
        allocator: copied,
        slots: insertion.slots.insert(new_id, DirtyPageSlot::CheckedOut),
        level: insertion.level + 1,
        ..insertion
    }
}

/// The pages of a path that have no copies do not depend on other pages.
pub proof fn lemma_clean_list_same(path: Seq<Page>, level: int, a: Slots, b: Slots)
    requires
        0 <= level,
        forall|i: int|
            level <= i < path.len() ==> a.contains_key((#[trigger] path[i]).page_id())
                == b.contains_key(path[i].page_id()),
    ensures
        clean_list(path, level, a) == clean_list(path, level, b),
    decreases path.len() - level,
{
    if level < path.len() {
        lemma_clean_list_same(path, level + 1, a, b);
        assert(a.contains_key(path[level].page_id()) == b.contains_key(path[level].page_id()));
    }
}

/// The pages that are taken below a node are those that come after its copy.
pub proof fn lemma_below_ids(insertion: Insertion, copied: PageAllocator, new_id: PageId)
    requires
        0 <= insertion.level < insertion.path.len(),
        !path_ids(insertion.path, insertion.level + 1).contains(new_id),
        ({
            let taken: nat = if insertion.slots.contains_key(
                insertion.path[insertion.level].page_id(),
            ) {
                0
            } else {
                1
            };
            &&& takes(insertion.allocator, copied, taken, insertion.oldest)
            &&& forall|k: int|
                0 <= k ==> #[trigger] copied.nth_page(k, insertion.oldest)
                    == insertion.allocator.nth_page(taken + k, insertion.oldest)
        }),
    ensures
        ({
            let below = insertion_below(insertion, copied, new_id);
            &&& forall|j: int|
                insertion.level < j < insertion.path.len() ==> #[trigger] below.copy_id(j)
                    == insertion.copy_id(j)
            &&& forall|j: int|
                insertion.level < j < insertion.path.len() ==> #[trigger] below.right_id(j)
                    == insertion.right_id(j)
            &&& forall|j: int, after: Slots|
                insertion.level < j < insertion.path.len() ==> #[trigger] below.replacement(
                    j,
                    after,
                ) == insertion.replacement(j, after)
            &&& forall|j: int, after: Slots|
                insertion.level < j < insertion.path.len() ==> #[trigger] below.holds(j, after)
                    == insertion.holds(j, after)
        }),
{
    let below = insertion_below(insertion, copied, new_id);
    let path = insertion.path;
    let level = insertion.level;
    assert forall|j: int| level < j <= path.len() implies #[trigger] clean_list(
        path,
        j,
        below.slots,
    ) == clean_list(path, j, insertion.slots) by {
        assert forall|i: int| j <= i < path.len() implies below.slots.contains_key(
            (#[trigger] path[i]).page_id(),
        ) == insertion.slots.contains_key(path[i].page_id()) by {
            assert(path_ids(path, level + 1).contains(path[i].page_id()));
        }
        lemma_clean_list_same(path, j, below.slots, insertion.slots);
    }
    assert(clean_list(path, level + 1, below.slots) == clean_list(path, level + 1, insertion.slots));
    assert forall|j: int| level < j < path.len() implies #[trigger] below.copy_id(j)
        == insertion.copy_id(j) by {
        assert(path_ids(path, level + 1).contains(path[j].page_id()));
        lemma_clean_list_shrinks(path, level + 1, j, insertion.slots);
        assert(clean_list(path, j, below.slots) == clean_list(path, j, insertion.slots));
    }
    assert forall|j: int| level < j < path.len() implies #[trigger] below.right_id(j)
        == insertion.right_id(j) by {}
    assert forall|j: int, after: Slots| level < j < path.len() implies #[trigger] below.replacement(
        j,
        after,
    ) == insertion.replacement(j, after) by {
        assert(below.copy_id(j) == insertion.copy_id(j));
        assert(below.right_id(j) == insertion.right_id(j));
    }
    assert forall|j: int, after: Slots| level < j < path.len() implies #[trigger] below.holds(
        j,
        after,
    ) == insertion.holds(j, after) by {
        assert(below.copy_id(j) == insertion.copy_id(j));
        assert(below.right_id(j) == insertion.right_id(j));
        if j + 1 < path.len() {
            assert(below.replacement(j + 1, after) == insertion.replacement(j + 1, after));
        }
    }
}

/// Fewer pages of a path have no copies further down.
proof fn lemma_clean_list_shrinks(path: Seq<Page>, level: int, j: int, slots: Slots)
    requires
        0 <= level <= j <= path.len(),
    ensures
        clean_list(path, j, slots).len() <= clean_list(path, level, slots).len(),
    decreases j - level,
{
    if level < j {
        lemma_clean_list_shrinks(path, level + 1, j, slots);
    }
}

} // verus!
