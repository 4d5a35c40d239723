//! That what a transaction does to its pages, node by node, stores the pair in the tree.

use crate::kv::btree::branch_node::{branch_children, branch_wf, child_index, first_key_dropped};
use crate::kv::btree::leaf_node::{leaf_pairs, leaf_wf};
use crate::kv::btree::tree_model::{
    agree_on, changed_only, child_high, child_low, children_pages, children_with, lemma_child_bounds,
    lemma_tree_frame, stores, tree_ok, tree_pages, within, High, Low, Pages, Replacement, SplitOff,
};
use crate::kv::btree::tree_path::{
    clean_ids, path_current, path_ids, path_ok, path_read_from, path_step_ok,
};
use crate::kv::btree::tree_update::{
    copied_from, lemma_branch_split, lemma_branch_stored, lemma_leaf_split, lemma_leaf_stored,
    lemma_stores_from, stored_below,
};
use crate::kv::entries::upsert;
use crate::kv::pages::checksum::xxh3_128;
use crate::kv::pages::page::{Page, PageMut};
use crate::kv::pages::PageId;
use crate::kv::transactions::dirty_pages::{slot_contents, DirtyPageSlot};
use crate::kv::transactions::write_transaction::overlay;
use vstd::prelude::*;

verus! {

/// The changed pages of a transaction.
pub type Slots = Map<PageId, DirtyPageSlot>;

/// The pages that a transaction sees.
pub open spec fn seen(file: Pages, slots: Slots) -> Pages {
    overlay(file, slot_contents(slots))
}

/// What is known of the node at `level` of a path before the pair is stored below it: it is a tree
/// of its own, the key belongs there, and its pages are what the transaction sees.
pub open spec fn node_ready(
    file: Pages,
    slots: Slots,
    path: Seq<Page>,
    level: int,
    key: Seq<u8>,
    size: nat,
    checksum: u128,
    low: Low,
    high: High,
) -> bool {
    &&& tree_ok(
        seen(file, slots),
        path[level].page_id(),
        checksum,
        (path.len() - 1 - level) as nat,
        low,
        high,
        size,
    )
    &&& within(key, low, high)
    &&& path_read_from(path, level, slots, file)
}

/// That the pair was stored below the node at `level` of a path, if the pages that were taken for
/// it are not pages of that tree.
pub open spec fn node_stores(
    file: Pages,
    slots: Slots,
    slots_after: Slots,
    path: Seq<Page>,
    level: int,
    key: Seq<u8>,
    value: Seq<u8>,
    size: nat,
    replacement: Replacement,
    checksum: u128,
    low: Low,
    high: High,
) -> bool {
    let before = seen(file, slots);
    let page_id = path[level].page_id();
    let depth = (path.len() - 1 - level) as nat;
    let fresh = slots_after.dom().difference(slots.dom());
    node_ready(file, slots, path, level, key, size, checksum, low, high) && fresh.disjoint(
        tree_pages(before, page_id, depth),
    ) ==> stores(
        before,
        seen(file, slots_after),
        page_id,
        depth,
        low,
        high,
        size,
        key,
        value,
        replacement,
        fresh,
        clean_ids(path, level, slots),
    )
}

/// A page of the path is what the transaction sees there.
pub proof fn lemma_path_seen(
    file: Pages,
    slots: Slots,
    path: Seq<Page>,
    level: int,
    i: int,
)
    requires
        path_current(path, level, slots),
        path_read_from(path, level, slots, file),
        level <= i < path.len(),
    ensures
        seen(file, slots).contains_key(path[i].page_id()),
        seen(file, slots)[path[i].page_id()] == path[i].bytes(),
{
    let page = path[i];
    assert(slots.contains_key(page.page_id()) || file.contains_key(page.page_id()));
}

/// The pages of a path are pages of the tree.
proof fn lemma_path_in_tree(
    pages: Pages,
    path: Seq<Page>,
    level: int,
    key: Seq<u8>,
    size: nat,
    checksum: u128,
    low: Low,
    high: High,
    i: int,
)
    requires
        path_ok(path, key, size),
        0 <= level <= i < path.len(),
        forall|j: int|
            level <= j < path.len() ==> pages[(#[trigger] path[j]).page_id()] == path[j].bytes(),
        tree_ok(
            pages,
            path[level].page_id(),
            checksum,
            (path.len() - 1 - level) as nat,
            low,
            high,
            size,
        ),
        within(key, low, high),
    ensures
        tree_pages(pages, path[level].page_id(), (path.len() - 1 - level) as nat).contains(
            path[i].page_id(),
        ),
    decreases path.len() - level,
{
    if level < i {
        let children = branch_children(path[level].bytes());
        let c = child_index(children, key);
        let d = (path.len() - 2 - level) as nat;
        assert(path_step_ok(path, level, key, size));
        assert(pages[path[level].page_id()] == path[level].bytes());
        lemma_child_bounds(children, key, low, high);
        let child = children[c];
        lemma_path_in_tree(
            pages,
            path,
            level + 1,
            key,
            size,
            child.checksum,
            child_low(children, c, low),
            child_high(children, c, high),
            i,
        );
        assert(children_pages(pages, children, d).contains(path[i].page_id()));
    }
}

/// A leaf at the end of the path that has room for the pair.
pub proof fn lemma_leaf_node_stored(
    file: Pages,
    slots: Slots,
    path: Seq<Page>,
    key: Seq<u8>,
    value: Seq<u8>,
    size: nat,
    page: PageMut,
    checksum: u128,
    low: Low,
    high: High,
)
    requires
        path.len() > 0,
        path_ok(path, key, size),
        path_current(path, path.len() - 1, slots),
        slots.contains_key(path.last().page_id()) ==> page.page_id() == path.last().page_id(),
        !slots.contains_key(path.last().page_id()) ==> !slots.contains_key(page.page_id()),
        page.bytes().len() == size,
        leaf_wf(page.bytes()),
        leaf_pairs(page.bytes()) == upsert(leaf_pairs(path.last().bytes()), key, value),
    ensures
        node_stores(
            file,
            slots,
            slots.insert(page.page_id(), DirtyPageSlot::Available(page)),
            path,
            path.len() - 1,
            key,
            value,
            size,
            (Replacement {
                page_id: page.page_id(),
                checksum: xxh3_128(page.bytes()),
                split: None,
            }),
            checksum,
            low,
            high,
        ),
{
    let level = path.len() - 1;
    let new_id = page.page_id();
    let slots_after = slots.insert(new_id, DirtyPageSlot::Available(page));
    let page_id = path[level].page_id();
    let fresh = slots_after.dom().difference(slots.dom());
    let before = seen(file, slots);
    let after = seen(file, slots_after);
    if node_ready(file, slots, path, level, key, size, checksum, low, high) && fresh.disjoint(
        tree_pages(before, page_id, 0),
    ) {
        lemma_path_seen(file, slots, path, level, level);
        assert(after[new_id] == page.bytes());
        assert(tree_pages(before, page_id, 0).contains(page_id));
        assert(clean_ids(path, level, slots) =~= copied_from(page_id, new_id)) by {
            assert(path[level].page_id() == page_id);
        }
        lemma_leaf_stored(
            before,
            after,
            page_id,
            checksum,
            low,
            high,
            size,
            key,
            value,
            new_id,
            fresh,
        );
    }
}

/// A leaf at the end of the path that had to be split.
pub proof fn lemma_leaf_node_split(
    file: Pages,
    slots: Slots,
    path: Seq<Page>,
    key: Seq<u8>,
    value: Seq<u8>,
    size: nat,
    page: PageMut,
    right: PageMut,
    checksum: u128,
    low: Low,
    high: High,
)
    requires
        path.len() > 0,
        path_ok(path, key, size),
        path_current(path, path.len() - 1, slots),
        slots.contains_key(path.last().page_id()) ==> page.page_id() == path.last().page_id(),
        !slots.contains_key(path.last().page_id()) ==> !slots.contains_key(page.page_id()),
        page.page_id() != right.page_id(),
        !slots.contains_key(right.page_id()),
        page.bytes().len() == size,
        leaf_wf(page.bytes()),
        right.bytes().len() == size,
        leaf_wf(right.bytes()),
        ({
            let pairs = upsert(leaf_pairs(path.last().bytes()), key, value);
            let mid = pairs.len() as int / 2;
            &&& pairs.len() >= 2
            &&& leaf_pairs(page.bytes()) == pairs.take(mid)
            &&& leaf_pairs(right.bytes()) == pairs.skip(mid)
        }),
    ensures
        ({
            let pairs = upsert(leaf_pairs(path.last().bytes()), key, value);
            node_stores(
                file,
                slots,
                slots.insert(page.page_id(), DirtyPageSlot::Available(page)).insert(
                    right.page_id(),
                    DirtyPageSlot::Available(right),
                ),
                path,
                path.len() - 1,
                key,
                value,
                size,
                (Replacement {
                    page_id: page.page_id(),
                    checksum: xxh3_128(page.bytes()),
                    split: Some(
                        SplitOff {
                            key: pairs[pairs.len() as int / 2].0,
                            page_id: right.page_id(),
                            checksum: xxh3_128(right.bytes()),
                        },
                    ),
                }),
                checksum,
                low,
                high,
            )
        }),
{
    let level = path.len() - 1;
    let new_id = page.page_id();
    let slots_after = slots.insert(new_id, DirtyPageSlot::Available(page)).insert(
        right.page_id(),
        DirtyPageSlot::Available(right),
    );
    let page_id = path[level].page_id();
    let fresh = slots_after.dom().difference(slots.dom());
    let before = seen(file, slots);
    let after = seen(file, slots_after);
    if node_ready(file, slots, path, level, key, size, checksum, low, high) && fresh.disjoint(
        tree_pages(before, page_id, 0),
    ) {
        lemma_path_seen(file, slots, path, level, level);
        assert(after[new_id] == page.bytes());
        assert(after[right.page_id()] == right.bytes());
        assert(tree_pages(before, page_id, 0).contains(page_id));
        assert(clean_ids(path, level, slots) =~= copied_from(page_id, new_id)) by {
            assert(path[level].page_id() == page_id);
        }
        lemma_leaf_split(
            before,
            after,
            page_id,
            checksum,
            low,
            high,
            size,
            key,
            value,
            new_id,
            right.page_id(),
            fresh,
        );
    }
}

/// How the changed pages stand around the call that stores the pair below the node at `level`: the
/// transaction's own copy of that node is being worked on, and no page was touched but those of the
/// rest of the path and new ones.
pub open spec fn slots_below(
    slots: Slots,
    slots_before: Slots,
    slots_below: Slots,
    path: Seq<Page>,
    level: int,
    new_id: PageId,
) -> bool {
    let page_id = path[level].page_id();
    &&& slots.contains_key(page_id) ==> new_id == page_id
    &&& !slots.contains_key(page_id) ==> !slots.contains_key(new_id)
    &&& slots_before == slots.insert(new_id, DirtyPageSlot::CheckedOut)
    &&& forall|p: PageId| #[trigger]
        slots_before.contains_key(p) ==> slots_below.contains_key(p) && (!path_ids(
            path,
            level + 1,
        ).contains(p) ==> slots_below[p] == slots_before[p])
}

/// What the transaction sees below the node that it works on is what it saw before.
proof fn lemma_seen_below(
    file: Pages,
    slots: Slots,
    slots_before: Slots,
    after_below: Slots,
    path: Seq<Page>,
    level: int,
    new_id: PageId,
    p: PageId,
)
    requires
        slots_below(slots, slots_before, after_below, path, level, new_id),
        p != path[level].page_id(),
    ensures
        seen(file, slots_before).contains_key(p) == seen(file, slots).contains_key(p),
        seen(file, slots).contains_key(p) ==> seen(file, slots_before)[p] == seen(file, slots)[p],
        !path_ids(path, level + 1).contains(p) && !after_below.dom().difference(
            slots_before.dom(),
        ).contains(p) ==> seen(file, after_below).contains_key(p) == seen(file, slots).contains_key(
            p,
        ) && (seen(file, slots).contains_key(p) ==> seen(file, after_below)[p] == seen(
            file,
            slots,
        )[p]),
{
    if slots_before.contains_key(p) {
        assert(after_below.contains_key(p));
    }
}

/// The node at `level` once the pair was stored below it.
proof fn lemma_stored_below_node(
    file: Pages,
    slots: Slots,
    slots_before: Slots,
    after_below: Slots,
    path: Seq<Page>,
    level: int,
    key: Seq<u8>,
    value: Seq<u8>,
    size: nat,
    replacement: Replacement,
    new_id: PageId,
    checksum: u128,
    low: Low,
    high: High,
)
    requires
        0 <= level,
        level + 1 < path.len(),
        path_ok(path, key, size),
        path_current(path, level, slots),
        slots_below(slots, slots_before, after_below, path, level, new_id),
        forall|c: u128, l: Low, h: High| #[trigger]
            node_stores(
                file,
                slots_before,
                after_below,
                path,
                level + 1,
                key,
                value,
                size,
                replacement,
                c,
                l,
                h,
            ),
        node_ready(file, slots, path, level, key, size, checksum, low, high),
        after_below.dom().difference(slots.dom()).disjoint(
            tree_pages(
                seen(file, slots),
                path[level].page_id(),
                (path.len() - 1 - level) as nat,
            ),
        ),
    ensures
        ({
            let before = seen(file, slots);
            let page_id = path[level].page_id();
            &&& before.contains_key(page_id)
            &&& before[page_id] == path[level].bytes()
            &&& stored_below(
                before,
                seen(file, after_below),
                branch_children(path[level].bytes()),
                (path.len() - 2 - level) as nat,
                low,
                high,
                size,
                key,
                value,
                replacement,
                after_below.dom().difference(slots_before.dom()),
                clean_ids(path, level + 1, slots),
            )
            &&& clean_ids(path, level, slots) == clean_ids(path, level + 1, slots).union(
                copied_from(page_id, new_id),
            )
        }),
{
    let before = seen(file, slots);
    let before_call = seen(file, slots_before);
    let below = seen(file, after_below);
    let page_id = path[level].page_id();
    let depth = (path.len() - 1 - level) as nat;
    let d = (path.len() - 2 - level) as nat;
    let fresh = after_below.dom().difference(slots.dom());
    let fresh_below = after_below.dom().difference(slots_before.dom());
    let all = tree_pages(before, page_id, depth);
    lemma_path_seen(file, slots, path, level, level);
    assert(path_step_ok(path, level, key, size));
    let children = branch_children(path[level].bytes());
    let c = child_index(children, key);
    lemma_child_bounds(children, key, low, high);
    let child = children[c];
    assert(child.page_id == path[level + 1].page_id());
    let child_pages = tree_pages(before, child.page_id, d);
    assert(child_pages.subset_of(children_pages(before, children, d)));
    assert(all == children_pages(before, children, d).insert(page_id));
    // The copy of this node is none of the pages below it.
    assert(!children_pages(before, children, d).contains(new_id)) by {
        if !slots.contains_key(page_id) {
            assert(after_below.contains_key(new_id)) by {
                assert(slots_before.contains_key(new_id));
            }
            assert(fresh.contains(new_id));
        }
    }
    assert forall|p: PageId| #[trigger] child_pages.contains(p) && before.contains_key(
        p,
    ) implies before_call.contains_key(p) && before_call[p] == before[p] by {
        lemma_seen_below(file, slots, slots_before, after_below, path, level, new_id, p);
    }
    let l = child_low(children, c, low);
    let h = child_high(children, c, high);
    lemma_tree_frame(before, before_call, child.page_id, child.checksum, d, l, h, size);
    // The rest of the path lies below the child.
    assert forall|i: int| level < i < path.len() implies child_pages.contains(
        (#[trigger] path[i]).page_id(),
    ) by {
        assert forall|j: int| level + 1 <= j < path.len() implies before[(
        #[trigger] path[j]).page_id()] == path[j].bytes() by {
            lemma_path_seen(file, slots, path, level, j);
        }
        lemma_path_in_tree(before, path, level + 1, key, size, child.checksum, l, h, i);
    }
    assert(path_read_from(path, level + 1, slots_before, file));
    assert(clean_ids(path, level + 1, slots_before) =~= clean_ids(path, level + 1, slots)) by {
        assert forall|p: PageId|
            clean_ids(path, level + 1, slots).contains(p) implies !slots_before.contains_key(p) by {
            let i = choose|i: int|
                level + 1 <= i < path.len() && (#[trigger] path[i]).page_id() == p;
            assert(child_pages.contains(path[i].page_id()));
        }
    }
    assert(node_ready(file, slots_before, path, level + 1, key, size, child.checksum, l, h));
    assert(fresh_below.subset_of(fresh));
    assert(node_stores(
        file,
        slots_before,
        after_below,
        path,
        level + 1,
        key,
        value,
        size,
        replacement,
        child.checksum,
        l,
        h,
    ));
    assert(agree_on(before, before_call, child_pages));
    lemma_stores_from(
        before,
        before_call,
        below,
        child.page_id,
        child.checksum,
        d,
        l,
        h,
        size,
        key,
        value,
        replacement,
        fresh_below,
        clean_ids(path, level + 1, slots),
    );
    let siblings = children_pages(before, children, d).difference(child_pages);
    assert forall|p: PageId| #[trigger] siblings.contains(p) && before.contains_key(p) implies below.contains_key(
        p,
    ) && below[p] == before[p] by {
        assert(all.contains(p));
        assert(!fresh.contains(p));
        if path_ids(path, level + 1).contains(p) {
            let i = choose|i: int|
                level + 1 <= i < path.len() && (#[trigger] path[i]).page_id() == p;
            assert(child_pages.contains(path[i].page_id()));
        }
        lemma_seen_below(file, slots, slots_before, after_below, path, level, new_id, p);
    }
    assert(clean_ids(path, level, slots) =~= clean_ids(path, level + 1, slots).union(
        copied_from(page_id, new_id),
    )) by {
        assert forall|p: PageId| #![auto]
            clean_ids(path, level, slots).contains(p) == (clean_ids(
                path,
                level + 1,
                slots,
            ).contains(p) || copied_from(page_id, new_id).contains(p)) by {
            if clean_ids(path, level, slots).contains(p) {
                let i = choose|i: int|
                    level <= i < path.len() && (#[trigger] path[i]).page_id() == p;
                if i > level {
                    assert(clean_ids(path, level + 1, slots).contains(p));
                } else {
                    assert(!slots.contains_key(new_id));
                    assert(new_id != page_id) by {
                        assert(slots_before.contains_key(new_id));
                        assert(after_below.contains_key(new_id));
                        assert(fresh.contains(new_id));
                        assert(all.contains(page_id));
                    }
                }
            }
            if copied_from(page_id, new_id).contains(p) {
                assert(path[level].page_id() == p);
                assert(!slots.contains_key(p));
            }
        }
    }
}

/// A branch page that has room for what became of its child.
pub proof fn lemma_branch_node_stored(
    file: Pages,
    slots: Slots,
    slots_before: Slots,
    after_below: Slots,
    path: Seq<Page>,
    level: int,
    key: Seq<u8>,
    value: Seq<u8>,
    size: nat,
    replacement: Replacement,
    page: PageMut,
    checksum: u128,
    low: Low,
    high: High,
)
    requires
        0 <= level,
        level + 1 < path.len(),
        path_ok(path, key, size),
        path_current(path, level, slots),
        slots_below(slots, slots_before, after_below, path, level, page.page_id()),
        forall|c: u128, l: Low, h: High| #[trigger]
            node_stores(
                file,
                slots_before,
                after_below,
                path,
                level + 1,
                key,
                value,
                size,
                replacement,
                c,
                l,
                h,
            ),
        page.bytes().len() == size,
        branch_wf(page.bytes()),
        ({
            let children = branch_children(path[level].bytes());
            branch_children(page.bytes()) == children_with(
                children,
                child_index(children, key),
                replacement,
            )
        }),
    ensures
        node_stores(
            file,
            slots,
            after_below.insert(page.page_id(), DirtyPageSlot::Available(page)),
            path,
            level,
            key,
            value,
            size,
            (Replacement {
                page_id: page.page_id(),
                checksum: xxh3_128(page.bytes()),
                split: None,
            }),
            checksum,
            low,
            high,
        ),
{
    let new_id = page.page_id();
    let slots_after = after_below.insert(new_id, DirtyPageSlot::Available(page));
    let before = seen(file, slots);
    let below = seen(file, after_below);
    let after = seen(file, slots_after);
    let page_id = path[level].page_id();
    let depth = (path.len() - 1 - level) as nat;
    let d = (path.len() - 2 - level) as nat;
    let fresh = slots_after.dom().difference(slots.dom());
    assert(slots_before.contains_key(new_id));
    assert(after_below.contains_key(new_id));
    assert(slots_after.dom() =~= after_below.dom());
    if node_ready(file, slots, path, level, key, size, checksum, low, high) && fresh.disjoint(
        tree_pages(before, page_id, depth),
    ) {
        lemma_stored_below_node(
            file,
            slots,
            slots_before,
            after_below,
            path,
            level,
            key,
            value,
            size,
            replacement,
            new_id,
            checksum,
            low,
            high,
        );
        assert(after[new_id] == page.bytes());
        assert(changed_only(below, after, Set::empty().insert(new_id)));
        assert(tree_pages(before, page_id, depth).contains(page_id));
        lemma_branch_stored(
            before,
            below,
            after,
            page_id,
            checksum,
            d,
            low,
            high,
            size,
            key,
            value,
            replacement,
            after_below.dom().difference(slots_before.dom()),
            clean_ids(path, level + 1, slots),
            new_id,
            fresh,
        );
    }
}

/// A branch page that had to be split.
pub proof fn lemma_branch_node_split(
    file: Pages,
    slots: Slots,
    slots_before: Slots,
    after_below: Slots,
    path: Seq<Page>,
    level: int,
    key: Seq<u8>,
    value: Seq<u8>,
    size: nat,
    replacement: Replacement,
    page: PageMut,
    right: PageMut,
    checksum: u128,
    low: Low,
    high: High,
)
    requires
        0 <= level,
        level + 1 < path.len(),
        path_ok(path, key, size),
        path_current(path, level, slots),
        slots_below(slots, slots_before, after_below, path, level, page.page_id()),
        forall|c: u128, l: Low, h: High| #[trigger]
            node_stores(
                file,
                slots_before,
                after_below,
                path,
                level + 1,
                key,
                value,
                size,
                replacement,
                c,
                l,
                h,
            ),
        page.bytes().len() == size,
        branch_wf(page.bytes()),
        right.bytes().len() == size,
        branch_wf(right.bytes()),
        !after_below.contains_key(right.page_id()),
        ({
            let children = branch_children(path[level].bytes());
            let out = children_with(children, child_index(children, key), replacement);
            let mid = out.len() as int / 2;
            &&& out.len() >= 2
            &&& branch_children(page.bytes()) == first_key_dropped(out.take(mid))
            &&& branch_children(right.bytes()) == first_key_dropped(out.skip(mid))
        }),
    ensures
        ({
            let children = branch_children(path[level].bytes());
            let out = children_with(children, child_index(children, key), replacement);
            node_stores(
                file,
                slots,
                after_below.insert(page.page_id(), DirtyPageSlot::Available(page)).insert(
                    right.page_id(),
                    DirtyPageSlot::Available(right),
                ),
                path,
                level,
                key,
                value,
                size,
                (Replacement {
                    page_id: page.page_id(),
                    checksum: xxh3_128(page.bytes()),
                    split: Some(
                        SplitOff {
                            key: out[out.len() as int / 2].key,
                            page_id: right.page_id(),
                            checksum: xxh3_128(right.bytes()),
                        },
                    ),
                }),
                checksum,
                low,
                high,
            )
        }),
{
    let new_id = page.page_id();
    let right_id = right.page_id();
    let slots_after = after_below.insert(new_id, DirtyPageSlot::Available(page)).insert(
        right_id,
        DirtyPageSlot::Available(right),
    );
    let before = seen(file, slots);
    let below = seen(file, after_below);
    let after = seen(file, slots_after);
    let page_id = path[level].page_id();
    let depth = (path.len() - 1 - level) as nat;
    let d = (path.len() - 2 - level) as nat;
    let fresh = slots_after.dom().difference(slots.dom());
    assert(slots_before.contains_key(new_id));
    assert(after_below.contains_key(new_id));
    if node_ready(file, slots, path, level, key, size, checksum, low, high) && fresh.disjoint(
        tree_pages(before, page_id, depth),
    ) {
        assert(after_below.dom().difference(slots.dom()).subset_of(fresh));
        lemma_stored_below_node(
            file,
            slots,
            slots_before,
            after_below,
            path,
            level,
            key,
            value,
            size,
            replacement,
            new_id,
            checksum,
            low,
            high,
        );
        assert(after[new_id] == page.bytes());
        assert(after[right_id] == right.bytes());
        assert(changed_only(below, after, Set::empty().insert(new_id).insert(right_id)));
        assert(tree_pages(before, page_id, depth).contains(page_id));
        assert(!slots.contains_key(right_id)) by {
            if slots.contains_key(right_id) {
                assert(slots_before.contains_key(right_id));
            }
        }
        assert(fresh.contains(right_id));
        lemma_branch_split(
            before,
            below,
            after,
            page_id,
            checksum,
            d,
            low,
            high,
            size,
            key,
            value,
            replacement,
            after_below.dom().difference(slots_before.dom()),
            clean_ids(path, level + 1, slots),
            new_id,
            right_id,
            fresh,
        );
    }
}

} // verus!
