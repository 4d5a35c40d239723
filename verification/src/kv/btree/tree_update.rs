//! How storing a pair in a subtree carries over to the nodes above it.

use crate::kv::btree::branch_node::{
    branch_children, branch_wf, child_index, first_key_dropped, lemma_add_child_sorted,
    lemma_separators_split, separators, set_child, Child,
};
use crate::kv::btree::leaf_node::{leaf_pairs, leaf_wf};
use crate::kv::btree::tree_model::{
    agree_on, changed_only, child_high, child_low, children_get, children_ok, children_pages,
    children_with, inside, lemma_add_child_position, lemma_children_frame, lemma_tree_frame,
    replacement_get, replacement_ok, replacement_pages, stores, tree_get, tree_ok, tree_pages,
    updated, within, High, Low, Pages, Replacement, SplitOff,
};
use crate::kv::entries::{lemma_split_run, lemma_upsert, pair_keys, pairs_get, upsert};
use crate::kv::keys::{
    key_lt, keys_sorted, lemma_key_lt_asymmetric, lemma_key_lt_irreflexive, lemma_key_lt_transitive,
    lemma_not_gt_lt, lemma_rank_through, lemma_rank_through_splits, rank_through, splits_through,
};
use crate::kv::pages::checksum::xxh3_128;
use crate::kv::pages::PageId;
use vstd::prelude::*;

verus! {

/// Where a search goes once a separator was put in.
proof fn lemma_index_with_separator(keys: Seq<Seq<u8>>, i: int, separator: Seq<u8>, key: Seq<u8>)
    requires
        keys_sorted(keys),
        keys_sorted(keys.insert(i, separator)),
        0 <= i <= keys.len(),
    ensures
        ({
            let c = rank_through(keys, key) as int;
            &&& 0 <= c <= keys.len()
            &&& rank_through(keys.insert(i, separator), key) == if c < i || (c == i && key_lt(
                key,
                separator,
            )) {
                c
            } else {
                c + 1
            }
        }),
{
    let with = keys.insert(i, separator);
    let c = rank_through(keys, key) as int;
    lemma_rank_through_splits(keys, key);
    let p = if c < i || (c == i && key_lt(key, separator)) {
        c
    } else {
        c + 1
    };
    assert forall|j: int| 0 <= j < p implies !key_lt(key, #[trigger] with[j]) by {
        if j < i {
            assert(with[j] == keys[j]);
        } else if j == i {
            if c > i {
                assert(with[i + 1] == keys[i]);
                assert(key_lt(with[i], with[i + 1]));
                if key_lt(key, separator) {
                    lemma_key_lt_transitive(key, separator, keys[i]);
                }
            }
        } else {
            assert(with[j] == keys[j - 1]);
        }
    }
    assert forall|j: int| p <= j < with.len() implies key_lt(key, #[trigger] with[j]) by {
        if j < i {
            assert(with[j] == keys[j]);
        } else if j == i {
            if c < i {
                assert(with[i - 1] == keys[i - 1]);
                assert(key_lt(with[i - 1], with[i]));
                lemma_key_lt_transitive(key, keys[i - 1], separator);
            }
        } else {
            assert(with[j] == keys[j - 1]);
        }
    }
    assert(splits_through(with, key, p));
    lemma_rank_through(with, key, p);
}

/// The siblings of the child that changed stand as they stood.
proof fn lemma_sibling_kept(
    before: Pages,
    after: Pages,
    children: Seq<Child>,
    depth: nat,
    low: Low,
    high: High,
    size: nat,
    i: int,
    j: int,
    fresh: Set<PageId>,
)
    requires
        children_ok(before, children, depth, low, high, size),
        0 <= i < children.len(),
        0 <= j < children.len(),
        i != j,
        agree_on(
            before,
            after,
            children_pages(before, children, depth).difference(
                tree_pages(before, children[i].page_id, depth),
            ),
        ),
        fresh.disjoint(children_pages(before, children, depth)),
    ensures
        tree_pages(after, children[j].page_id, depth) == tree_pages(
            before,
            children[j].page_id,
            depth,
        ),
        tree_pages(before, children[j].page_id, depth).disjoint(
            tree_pages(before, children[i].page_id, depth).union(fresh),
        ),
        tree_ok(
            after,
            children[j].page_id,
            children[j].checksum,
            depth,
            child_low(children, j, low),
            child_high(children, j, high),
            size,
        ),
        forall|key: Seq<u8>| #[trigger]
            tree_get(after, children[j].page_id, depth, key) == tree_get(
                before,
                children[j].page_id,
                depth,
                key,
            ),
{
    let changed = tree_pages(before, children[i].page_id, depth);
    let kept = tree_pages(before, children[j].page_id, depth);
    assert(kept.disjoint(changed));
    assert forall|p: PageId| #[trigger] kept.contains(p) implies children_pages(
        before,
        children,
        depth,
    ).difference(changed).contains(p) && !fresh.contains(p) by {
        assert(children_pages(before, children, depth).contains(p));
    }
    assert(agree_on(before, after, kept));
    lemma_tree_frame(
        before,
        after,
        children[j].page_id,
        children[j].checksum,
        depth,
        child_low(children, j, low),
        child_high(children, j, high),
        size,
    );
}

/// Whether the pair was stored under the child of `children` that it belongs to, while the trees
/// under the other children were left alone.
pub open spec fn stored_below(
    before: Pages,
    after: Pages,
    children: Seq<Child>,
    depth: nat,
    low: Low,
    high: High,
    size: nat,
    key: Seq<u8>,
    value: Seq<u8>,
    replacement: Replacement,
    fresh: Set<PageId>,
    gone: Set<PageId>,
) -> bool {
    let i = child_index(children, key);
    &&& children_ok(before, children, depth, low, high, size)
    &&& stores(
        before,
        after,
        children[i].page_id,
        depth,
        child_low(children, i, low),
        child_high(children, i, high),
        size,
        key,
        value,
        replacement,
        fresh,
        gone,
    )
    &&& agree_on(
        before,
        after,
        children_pages(before, children, depth).difference(
            tree_pages(before, children[i].page_id, depth),
        ),
    )
    &&& fresh.disjoint(children_pages(before, children, depth))
}

/// Whether the children `out` in `after` hold what `children` held in `before`, with the pair.
pub open spec fn children_store(
    before: Pages,
    after: Pages,
    children: Seq<Child>,
    out: Seq<Child>,
    depth: nat,
    key: Seq<u8>,
    value: Seq<u8>,
    fresh: Set<PageId>,
    gone: Set<PageId>,
) -> bool {
    &&& forall|other: Seq<u8>| #[trigger]
        updated(
            children_get(after, out, depth, other),
            children_get(before, children, depth, other),
            other,
            key,
            value,
        )
    &&& gone.subset_of(children_pages(before, children, depth))
    &&& children_pages(after, out, depth).subset_of(
        children_pages(before, children, depth).difference(gone).union(fresh),
    )
}

/// The children of a node, once the pair was stored under the one that it belongs to, can stand
/// under one node again and hold what they held, with the pair.
pub proof fn lemma_children_with(
    before: Pages,
    after: Pages,
    children: Seq<Child>,
    depth: nat,
    low: Low,
    high: High,
    size: nat,
    key: Seq<u8>,
    value: Seq<u8>,
    replacement: Replacement,
    fresh: Set<PageId>,
    gone: Set<PageId>,
)
    requires
        stored_below(
            before,
            after,
            children,
            depth,
            low,
            high,
            size,
            key,
            value,
            replacement,
            fresh,
            gone,
        ),
    ensures
        ({
            let out = children_with(children, child_index(children, key), replacement);
            &&& children_ok(after, out, depth, low, high, size)
            &&& children_store(before, after, children, out, depth, key, value, fresh, gone)
        }),
{
    match replacement.split {
        None => {
            lemma_child_replaced(
                before,
                after,
                children,
                depth,
                low,
                high,
                size,
                key,
                value,
                replacement,
                fresh,
                gone,
            );
        },
        Some(_) => {
            lemma_child_split(
                before,
                after,
                children,
                depth,
                low,
                high,
                size,
                key,
                value,
                replacement,
                fresh,
                gone,
            );
        },
    }
}

proof fn lemma_child_replaced(
    before: Pages,
    after: Pages,
    children: Seq<Child>,
    depth: nat,
    low: Low,
    high: High,
    size: nat,
    key: Seq<u8>,
    value: Seq<u8>,
    replacement: Replacement,
    fresh: Set<PageId>,
    gone: Set<PageId>,
)
    requires
        stored_below(
            before,
            after,
            children,
            depth,
            low,
            high,
            size,
            key,
            value,
            replacement,
            fresh,
            gone,
        ),
        replacement.split is None,
    ensures
        ({
            let out = children_with(children, child_index(children, key), replacement);
            &&& children_ok(after, out, depth, low, high, size)
            &&& children_store(before, after, children, out, depth, key, value, fresh, gone)
        }),
{
    let i = child_index(children, key);
    let keys = separators(children);
    lemma_rank_through_splits(keys, key);
    let out = children_with(children, i, replacement);
    let old_pages = tree_pages(before, children[i].page_id, depth);
    assert(separators(out) =~= keys);
    assert forall|j: int| 0 <= j < children.len() && j != i implies {
        let id = (#[trigger] children[j]).page_id;
        &&& tree_pages(after, id, depth) == tree_pages(before, id, depth)
        &&& tree_pages(before, id, depth).disjoint(old_pages.union(fresh))
        &&& tree_ok(
            after,
            id,
            children[j].checksum,
            depth,
            child_low(children, j, low),
            child_high(children, j, high),
            size,
        )
    } by {
        lemma_sibling_kept(before, after, children, depth, low, high, size, i, j, fresh);
    }
    assert forall|j: int| 0 <= j < out.len() implies {
        &&& tree_ok(
            after,
            (#[trigger] out[j]).page_id,
            out[j].checksum,
            depth,
            child_low(out, j, low),
            child_high(out, j, high),
            size,
        )
        &&& j >= 1 ==> inside(out[j].key, low, high)
        &&& tree_pages(after, out[j].page_id, depth).subset_of(
            children_pages(before, children, depth).difference(gone).union(fresh),
        )
    } by {
        let c = children[j];
        assert(tree_pages(before, c.page_id, depth).subset_of(
            children_pages(before, children, depth),
        ));
        assert(child_low(out, j, low) == child_low(children, j, low));
        if j + 1 < children.len() {
            assert(out[j + 1].key == children[j + 1].key);
        }
        assert(child_high(out, j, high) == child_high(children, j, high));
    }
    assert forall|j: int, k: int| 0 <= j < k < out.len() implies tree_pages(
        after,
        (#[trigger] out[j]).page_id,
        depth,
    ).disjoint(tree_pages(after, (#[trigger] out[k]).page_id, depth)) by {
        let (cj, ck) = (children[j], children[k]);
    }
    assert forall|other: Seq<u8>| #[trigger]
        updated(
            children_get(after, out, depth, other),
            children_get(before, children, depth, other),
            other,
            key,
            value,
        ) by {
        let c = child_index(children, other);
        lemma_rank_through_splits(keys, other);
        if c == i {
            assert(updated(
                replacement_get(after, replacement, depth, other),
                tree_get(before, children[i].page_id, depth, other),
                other,
                key,
                value,
            ));
        } else {
            lemma_sibling_kept(before, after, children, depth, low, high, size, i, c, fresh);
        }
    }
}

/// The children of a node after child `i` was split.
proof fn lemma_split_shape(
    children: Seq<Child>,
    i: int,
    low: Low,
    high: High,
    replacement: Replacement,
    split: SplitOff,
)
    requires
        children.len() >= 1,
        keys_sorted(separators(children)),
        0 <= i < children.len(),
        replacement.split == Some(split),
        inside(split.key, child_low(children, i, low), child_high(children, i, high)),
    ensures
        ({
            let out = children_with(children, i, replacement);
            &&& out.len() == children.len() + 1
            &&& separators(out) == separators(children).insert(i, split.key)
            &&& keys_sorted(separators(out))
            &&& forall|j: int| 0 <= j < i ==> #[trigger] out[j] == children[j]
            &&& out[i] == Child {
                key: children[i].key,
                page_id: replacement.page_id,
                checksum: replacement.checksum,
            }
            &&& out[i + 1] == Child {
                key: split.key,
                page_id: split.page_id,
                checksum: split.checksum,
            }
            &&& forall|j: int| i + 1 < j < out.len() ==> #[trigger] out[j] == children[j - 1]
        }),
{
    let keys = separators(children);
    let replaced = set_child(children, i, replacement.page_id, replacement.checksum);
    assert(separators(replaced) =~= keys);
    assert(child_low(replaced, i, low) == child_low(children, i, low));
    assert(child_high(replaced, i, high) == child_high(children, i, high));
    lemma_add_child_position(replaced, i, split.key, low, high, split.page_id, split.checksum);
    lemma_add_child_sorted(replaced, split.key, split.page_id, split.checksum);
    let out = children_with(children, i, replacement);
    assert(separators(out) =~= keys.insert(i, split.key));
}

/// Child `j` after child `i` was split: it stands as it should, and its pages come from where the
/// pages of the child that it goes back to came from.
proof fn lemma_split_child(
    before: Pages,
    after: Pages,
    children: Seq<Child>,
    depth: nat,
    low: Low,
    high: High,
    size: nat,
    key: Seq<u8>,
    value: Seq<u8>,
    replacement: Replacement,
    fresh: Set<PageId>,
    gone: Set<PageId>,
    j: int,
)
    requires
        stored_below(
            before,
            after,
            children,
            depth,
            low,
            high,
            size,
            key,
            value,
            replacement,
            fresh,
            gone,
        ),
        replacement.split is Some,
        0 <= j <= children.len(),
    ensures
        ({
            let i = child_index(children, key);
            let out = children_with(children, i, replacement);
            let c = if j <= i {
                j
            } else {
                j - 1
            };
            let old_pages = tree_pages(before, children[c].page_id, depth);
            &&& tree_ok(
                after,
                out[j].page_id,
                out[j].checksum,
                depth,
                child_low(out, j, low),
                child_high(out, j, high),
                size,
            )
            &&& j >= 1 ==> inside(out[j].key, low, high)
            &&& tree_pages(after, out[j].page_id, depth).subset_of(if c == i {
                old_pages.difference(gone).union(fresh)
            } else {
                old_pages
            })
            &&& c != i ==> old_pages.disjoint(fresh) && old_pages.disjoint(gone)
        }),
{
    let i = child_index(children, key);
    let split = replacement.split->0;
    lemma_rank_through_splits(separators(children), key);
    lemma_split_shape(children, i, low, high, replacement, split);
    let out = children_with(children, i, replacement);
    let (left, right) = (out[i], out[i + 1]);
    if j < i {
        lemma_sibling_kept(before, after, children, depth, low, high, size, i, j, fresh);
        assert(out[j + 1].key == children[j + 1].key);
    } else if j > i + 1 {
        lemma_sibling_kept(before, after, children, depth, low, high, size, i, j - 1, fresh);
        if j < children.len() {
            assert(out[j + 1] == children[j]);
        }
    } else {
        if j == i + 1 {
            if j < children.len() {
                assert(out[j + 1] == children[j]);
            }
            lemma_split_inside(children, i, low, high, split.key);
        }
    }
    if j >= 1 {
        let c = children[j - 1];
        if j < children.len() {
            assert(inside(children[j].key, low, high));
        }
        if j > i + 1 {
            assert(inside(children[j - 1].key, low, high));
        }
    }
}

/// A key inside the bounds of a child lies inside those of its parent.
proof fn lemma_split_inside(children: Seq<Child>, i: int, low: Low, high: High, key: Seq<u8>)
    requires
        0 <= i < children.len(),
        forall|j: int| 1 <= j < children.len() ==> inside((#[trigger] children[j]).key, low, high),
        inside(key, child_low(children, i, low), child_high(children, i, high)),
    ensures
        inside(key, low, high),
{
    if i > 0 {
        assert(inside(children[i].key, low, high));
        if low is Some {
            lemma_key_lt_transitive(low->0, children[i].key, key);
        }
    }
    if i + 1 < children.len() {
        assert(inside(children[i + 1].key, low, high));
        if high is Some {
            lemma_key_lt_transitive(key, children[i + 1].key, high->0);
        }
    }
}

proof fn lemma_split_get(
    before: Pages,
    after: Pages,
    children: Seq<Child>,
    depth: nat,
    low: Low,
    high: High,
    size: nat,
    key: Seq<u8>,
    value: Seq<u8>,
    replacement: Replacement,
    fresh: Set<PageId>,
    gone: Set<PageId>,
    other: Seq<u8>,
)
    requires
        stored_below(
            before,
            after,
            children,
            depth,
            low,
            high,
            size,
            key,
            value,
            replacement,
            fresh,
            gone,
        ),
        replacement.split is Some,
    ensures
        ({
            let out = children_with(children, child_index(children, key), replacement);
            updated(
                children_get(after, out, depth, other),
                children_get(before, children, depth, other),
                other,
                key,
                value,
            )
        }),
{
    let i = child_index(children, key);
    let keys = separators(children);
    let split = replacement.split->0;
    lemma_rank_through_splits(keys, key);
    lemma_split_shape(children, i, low, high, replacement, split);
    let out = children_with(children, i, replacement);
    let c = child_index(children, other);
    lemma_rank_through_splits(keys, other);
    lemma_index_with_separator(keys, i, split.key, other);
    if c == i {
        assert(updated(
            replacement_get(after, replacement, depth, other),
            tree_get(before, children[i].page_id, depth, other),
            other,
            key,
            value,
        ));
    } else {
        lemma_sibling_kept(before, after, children, depth, low, high, size, i, c, fresh);
        if c < i {
            assert(out[c] == children[c]);
        } else {
            assert(out[c + 1] == children[c]);
        }
    }
}

proof fn lemma_split_disjoint(
    before: Pages,
    after: Pages,
    children: Seq<Child>,
    depth: nat,
    low: Low,
    high: High,
    size: nat,
    key: Seq<u8>,
    value: Seq<u8>,
    replacement: Replacement,
    fresh: Set<PageId>,
    gone: Set<PageId>,
    j: int,
    k: int,
)
    requires
        stored_below(
            before,
            after,
            children,
            depth,
            low,
            high,
            size,
            key,
            value,
            replacement,
            fresh,
            gone,
        ),
        replacement.split is Some,
        0 <= j < k <= children.len(),
    ensures
        ({
            let out = children_with(children, child_index(children, key), replacement);
            tree_pages(after, out[j].page_id, depth).disjoint(
                tree_pages(after, out[k].page_id, depth),
            )
        }),
{
    let i = child_index(children, key);
    let split = replacement.split->0;
    lemma_rank_through_splits(separators(children), key);
    lemma_split_shape(children, i, low, high, replacement, split);
    if !(j == i && k == i + 1) {
        lemma_split_child(before, after, children, depth, low, high, size, key, value, replacement, fresh, gone, j);
        lemma_split_child(before, after, children, depth, low, high, size, key, value, replacement, fresh, gone, k);
        let cj = if j <= i {
            j
        } else {
            j - 1
        };
        let ck = if k <= i {
            k
        } else {
            k - 1
        };
        assert(tree_pages(before, children[cj].page_id, depth).disjoint(
            tree_pages(before, children[ck].page_id, depth),
        ));
    }
}

proof fn lemma_child_split(
    before: Pages,
    after: Pages,
    children: Seq<Child>,
    depth: nat,
    low: Low,
    high: High,
    size: nat,
    key: Seq<u8>,
    value: Seq<u8>,
    replacement: Replacement,
    fresh: Set<PageId>,
    gone: Set<PageId>,
)
    requires
        stored_below(
            before,
            after,
            children,
            depth,
            low,
            high,
            size,
            key,
            value,
            replacement,
            fresh,
            gone,
        ),
        replacement.split is Some,
    ensures
        ({
            let out = children_with(children, child_index(children, key), replacement);
            &&& children_ok(after, out, depth, low, high, size)
            &&& children_store(before, after, children, out, depth, key, value, fresh, gone)
        }),
{
    let i = child_index(children, key);
    let split = replacement.split->0;
    lemma_rank_through_splits(separators(children), key);
    lemma_split_shape(children, i, low, high, replacement, split);
    let out = children_with(children, i, replacement);
    let all_pages = children_pages(before, children, depth);
    assert forall|j: int| 0 <= j < out.len() implies {
        &&& tree_ok(
            after,
            (#[trigger] out[j]).page_id,
            out[j].checksum,
            depth,
            child_low(out, j, low),
            child_high(out, j, high),
            size,
        )
        &&& j >= 1 ==> inside(out[j].key, low, high)
        &&& tree_pages(after, out[j].page_id, depth).subset_of(
            all_pages.difference(gone).union(fresh),
        )
    } by {
        lemma_split_child(before, after, children, depth, low, high, size, key, value, replacement, fresh, gone, j);
        let c = if j <= i {
            j
        } else {
            j - 1
        };
        assert(tree_pages(before, children[c].page_id, depth).subset_of(all_pages));
    }
    assert forall|j: int, k: int| 0 <= j < k < out.len() implies tree_pages(
        after,
        (#[trigger] out[j]).page_id,
        depth,
    ).disjoint(tree_pages(after, (#[trigger] out[k]).page_id, depth)) by {
        lemma_split_disjoint(before, after, children, depth, low, high, size, key, value, replacement, fresh, gone, j, k);
    }
    assert forall|other: Seq<u8>| #[trigger]
        updated(
            children_get(after, out, depth, other),
            children_get(before, children, depth, other),
            other,
            key,
            value,
        ) by {
        lemma_split_get(before, after, children, depth, low, high, size, key, value, replacement, fresh, gone, other);
    }
}

/// The key that a node holds in front of its first child plays no part.
proof fn lemma_first_key_dropped(
    pages: Pages,
    children: Seq<Child>,
    depth: nat,
    low: Low,
    high: High,
    size: nat,
)
    requires
        children_ok(pages, children, depth, low, high, size),
    ensures
        children_ok(pages, first_key_dropped(children), depth, low, high, size),
        children_pages(pages, first_key_dropped(children), depth) == children_pages(
            pages,
            children,
            depth,
        ),
        forall|key: Seq<u8>| #[trigger]
            children_get(pages, first_key_dropped(children), depth, key) == children_get(
                pages,
                children,
                depth,
                key,
            ),
{
    let dropped = first_key_dropped(children);
    assert(separators(dropped) =~= separators(children));
    assert forall|i: int| 0 <= i < children.len() implies {
        &&& (#[trigger] dropped[i]).page_id == children[i].page_id
        &&& dropped[i].checksum == children[i].checksum
        &&& child_low(dropped, i, low) == child_low(children, i, low)
        &&& child_high(dropped, i, high) == child_high(children, i, high)
    } by {}
    assert forall|i: int| 0 <= i < children.len() implies (#[trigger] children[i]).page_id
        == dropped[i].page_id by {}
    assert forall|p: PageId|
        children_pages(pages, dropped, depth).contains(p) == children_pages(
            pages,
            children,
            depth,
        ).contains(p) by {
        if children_pages(pages, children, depth).contains(p) {
            let i = choose|i: int|
                0 <= i < children.len() && tree_pages(
                    pages,
                    (#[trigger] children[i]).page_id,
                    depth,
                ).contains(p);
            assert(dropped[i].page_id == children[i].page_id);
        }
    }
    assert(children_pages(pages, dropped, depth) =~= children_pages(pages, children, depth));
    assert forall|i: int| 1 <= i < dropped.len() implies inside(
        (#[trigger] dropped[i]).key,
        low,
        high,
    ) by {
        assert(dropped[i] == children[i]);
    }
    assert forall|i: int, j: int| 0 <= i < j < dropped.len() implies tree_pages(
        pages,
        (#[trigger] dropped[i]).page_id,
        depth,
    ).disjoint(tree_pages(pages, (#[trigger] dropped[j]).page_id, depth)) by {
        let (a, b) = (children[i], children[j]);
    }
    assert forall|key: Seq<u8>| #[trigger]
        children_get(pages, dropped, depth, key) == children_get(pages, children, depth, key) by {
        lemma_rank_through_splits(separators(children), key);
    }
}

/// A branch page that names these children makes one tree of them.
pub proof fn lemma_node_over_children(
    pages: Pages,
    page_id: PageId,
    children: Seq<Child>,
    depth: nat,
    low: Low,
    high: High,
    size: nat,
)
    requires
        children_ok(pages, children, depth, low, high, size),
        pages.contains_key(page_id),
        pages[page_id].len() == size,
        branch_wf(pages[page_id]),
        branch_children(pages[page_id]) == children || branch_children(pages[page_id])
            == first_key_dropped(children),
        !children_pages(pages, children, depth).contains(page_id),
    ensures
        tree_ok(pages, page_id, xxh3_128(pages[page_id]), depth + 1, low, high, size),
        tree_pages(pages, page_id, depth + 1) == children_pages(pages, children, depth).insert(
            page_id,
        ),
        forall|key: Seq<u8>| #[trigger]
            tree_get(pages, page_id, depth + 1, key) == children_get(pages, children, depth, key),
{
    lemma_first_key_dropped(pages, children, depth, low, high, size);
    let held = branch_children(pages[page_id]);
    assert forall|key: Seq<u8>| #[trigger]
        tree_get(pages, page_id, depth + 1, key) == children_get(pages, children, depth, key) by {
        assert(children_get(pages, held, depth, key) == children_get(pages, children, depth, key));
    }
}

/// The bounds and the place of child `i` of a run of children.
proof fn lemma_run_child(
    children: Seq<Child>,
    from: int,
    to: int,
    low: Low,
    high: High,
    i: int,
)
    requires
        keys_sorted(separators(children)),
        forall|j: int| 1 <= j < children.len() ==> inside((#[trigger] children[j]).key, low, high),
        0 <= from < to <= children.len(),
        0 <= i < to - from,
    ensures
        ({
            let run = children.subrange(from, to);
            let run_low = child_low(children, from, low);
            let run_high = child_high(children, to - 1, high);
            &&& run[i] == children[from + i]
            &&& child_low(run, i, run_low) == child_low(children, from + i, low)
            &&& child_high(run, i, run_high) == child_high(children, from + i, high)
            &&& i >= 1 ==> inside(run[i].key, run_low, run_high)
        }),
{
    let keys = separators(children);
    if i >= 1 {
        assert(inside(children[from + i].key, low, high));
        assert(keys[from + i - 1] == children[from + i].key);
        if from > 0 {
            assert(keys[from - 1] == children[from].key);
        }
        if to < children.len() {
            assert(keys[to - 1] == children[to].key);
        }
    }
}

proof fn lemma_run_sorted(children: Seq<Child>, from: int, to: int)
    requires
        keys_sorted(separators(children)),
        0 <= from < to <= children.len(),
    ensures
        keys_sorted(separators(children.subrange(from, to))),
{
    let run = separators(children.subrange(from, to));
    let keys = separators(children);
    assert forall|i: int, j: int| 0 <= i < j < run.len() implies key_lt(
        #[trigger] run[i],
        #[trigger] run[j],
    ) by {
        assert(run[i] == keys[from + i]);
        assert(run[j] == keys[from + j]);
    }
}

/// A run of the children of a node can stand under a node of its own.
proof fn lemma_children_run(
    pages: Pages,
    children: Seq<Child>,
    from: int,
    to: int,
    depth: nat,
    low: Low,
    high: High,
    size: nat,
)
    requires
        children_ok(pages, children, depth, low, high, size),
        0 <= from < to <= children.len(),
    ensures
        children_ok(
            pages,
            children.subrange(from, to),
            depth,
            child_low(children, from, low),
            child_high(children, to - 1, high),
            size,
        ),
{
    let run = children.subrange(from, to);
    let run_low = child_low(children, from, low);
    let run_high = child_high(children, to - 1, high);
    lemma_run_sorted(children, from, to);
    assert forall|i: int| 0 <= i < run.len() implies {
        &&& tree_ok(
            pages,
            (#[trigger] run[i]).page_id,
            run[i].checksum,
            depth,
            child_low(run, i, run_low),
            child_high(run, i, run_high),
            size,
        )
        &&& i >= 1 ==> inside(run[i].key, run_low, run_high)
    } by {
        lemma_run_child(children, from, to, low, high, i);
    }
    assert forall|i: int, j: int| 0 <= i < j < run.len() implies tree_pages(
        pages,
        (#[trigger] run[i]).page_id,
        depth,
    ).disjoint(tree_pages(pages, (#[trigger] run[j]).page_id, depth)) by {
        let (a, b) = (children[from + i], children[from + j]);
        assert(tree_pages(pages, a.page_id, depth).disjoint(tree_pages(pages, b.page_id, depth)));
    }
}

/// The pages under two runs of children that do not overlap.
proof fn lemma_runs_disjoint(
    pages: Pages,
    children: Seq<Child>,
    mid: int,
    depth: nat,
    low: Low,
    high: High,
    size: nat,
)
    requires
        children_ok(pages, children, depth, low, high, size),
        0 <= mid <= children.len(),
    ensures
        ({
            let left = children_pages(pages, children.take(mid), depth);
            let right = children_pages(pages, children.skip(mid), depth);
            &&& left.disjoint(right)
            &&& left.subset_of(children_pages(pages, children, depth))
            &&& right.subset_of(children_pages(pages, children, depth))
        }),
{
    let (left, right) = (children.take(mid), children.skip(mid));
    assert forall|p: PageId| #[trigger]
        children_pages(pages, left, depth).contains(p) implies children_pages(
        pages,
        children,
        depth,
    ).contains(p) && !children_pages(pages, right, depth).contains(p) by {
        let i = choose|i: int|
            0 <= i < left.len() && tree_pages(
                pages,
                (#[trigger] left[i]).page_id,
                depth,
            ).contains(p);
        assert(children[i] == left[i]);
        if children_pages(pages, right, depth).contains(p) {
            let j = choose|j: int|
                0 <= j < right.len() && tree_pages(
                    pages,
                    (#[trigger] right[j]).page_id,
                    depth,
                ).contains(p);
            assert(children[mid + j] == right[j]);
            assert(tree_pages(pages, children[i].page_id, depth).disjoint(
                tree_pages(pages, children[mid + j].page_id, depth),
            ));
        }
    }
    assert forall|p: PageId| #[trigger]
        children_pages(pages, right, depth).contains(p) implies children_pages(
        pages,
        children,
        depth,
    ).contains(p) by {
        let j = choose|j: int|
            0 <= j < right.len() && tree_pages(
                pages,
                (#[trigger] right[j]).page_id,
                depth,
            ).contains(p);
        assert(children[mid + j] == right[j]);
    }
}

/// Children that can stand under one node can stand under two, split at `mid`.
proof fn lemma_children_halves(
    pages: Pages,
    children: Seq<Child>,
    mid: int,
    depth: nat,
    low: Low,
    high: High,
    size: nat,
)
    requires
        children_ok(pages, children, depth, low, high, size),
        1 <= mid < children.len(),
    ensures
        ({
            let separator = children[mid].key;
            let (left, right) = (children.take(mid), children.skip(mid));
            &&& inside(separator, low, high)
            &&& children_ok(pages, left, depth, low, Some(separator), size)
            &&& children_ok(pages, right, depth, Some(separator), high, size)
            &&& children_pages(pages, left, depth).disjoint(children_pages(pages, right, depth))
            &&& children_pages(pages, left, depth).subset_of(
                children_pages(pages, children, depth),
            )
            &&& children_pages(pages, right, depth).subset_of(
                children_pages(pages, children, depth),
            )
            &&& forall|key: Seq<u8>| #[trigger]
                children_get(pages, children, depth, key) == if key_lt(key, separator) {
                    children_get(pages, left, depth, key)
                } else {
                    children_get(pages, right, depth, key)
                }
        }),
{
    let separator = children[mid].key;
    let (left, right) = (children.take(mid), children.skip(mid));
    lemma_children_run(pages, children, 0, mid, depth, low, high, size);
    lemma_children_run(pages, children, mid, children.len() as int, depth, low, high, size);
    lemma_runs_disjoint(pages, children, mid, depth, low, high, size);
    assert(left =~= children.subrange(0, mid));
    assert(right =~= children.subrange(mid, children.len() as int));
    assert forall|key: Seq<u8>| #[trigger]
        children_get(pages, children, depth, key) == if key_lt(key, separator) {
            children_get(pages, left, depth, key)
        } else {
            children_get(pages, right, depth, key)
        } by {
        lemma_halves_index(children, mid, key);
    }
}

/// Where a search goes once the children are split at `mid`.
proof fn lemma_halves_index(children: Seq<Child>, mid: int, key: Seq<u8>)
    requires
        keys_sorted(separators(children)),
        1 <= mid < children.len(),
    ensures
        ({
            let (left, right) = (children.take(mid), children.skip(mid));
            if key_lt(key, children[mid].key) {
                &&& 0 <= child_index(left, key) < mid
                &&& left[child_index(left, key)] == children[child_index(children, key)]
            } else {
                &&& 0 <= child_index(right, key) < right.len()
                &&& right[child_index(right, key)] == children[child_index(children, key)]
            }
        }),
{
    let keys = separators(children);
    let (left, right) = (children.take(mid), children.skip(mid));
    let c = child_index(children, key);
    lemma_separators_split(children, mid);
    lemma_rank_through_splits(keys, key);
    assert(keys[mid - 1] == children[mid].key);
    if key_lt(key, children[mid].key) {
        assert(splits_through(separators(left), key, c));
        lemma_rank_through(separators(left), key, c);
    } else {
        assert(c >= mid);
        assert forall|j: int| 0 <= j < c - mid implies !key_lt(
            key,
            #[trigger] separators(right)[j],
        ) by {
            assert(separators(right)[j] == keys[mid + j]);
        }
        assert forall|j: int| c - mid <= j < separators(right).len() implies key_lt(
            key,
            #[trigger] separators(right)[j],
        ) by {
            assert(separators(right)[j] == keys[mid + j]);
        }
        assert(splits_through(separators(right), key, c - mid));
        lemma_rank_through(separators(right), key, c - mid);
    }
}

/// The page that is left behind where the node on `page_id` is now on `new_id`.
pub open spec fn copied_from(page_id: PageId, new_id: PageId) -> Set<PageId> {
    if new_id == page_id {
        Set::empty()
    } else {
        Set::empty().insert(page_id)
    }
}

/// Storing a pair in a leaf that has room for it.
pub proof fn lemma_leaf_stored(
    before: Pages,
    after: Pages,
    page_id: PageId,
    checksum: u128,
    low: Low,
    high: High,
    size: nat,
    key: Seq<u8>,
    value: Seq<u8>,
    new_id: PageId,
    fresh: Set<PageId>,
)
    requires
        tree_ok(before, page_id, checksum, 0, low, high, size),
        within(key, low, high),
        after.contains_key(new_id),
        after[new_id].len() == size,
        leaf_wf(after[new_id]),
        leaf_pairs(after[new_id]) == upsert(leaf_pairs(before[page_id]), key, value),
        new_id == page_id || fresh.contains(new_id),
        !fresh.contains(page_id),
    ensures
        stores(
            before,
            after,
            page_id,
            0,
            low,
            high,
            size,
            key,
            value,
            (Replacement { page_id: new_id, checksum: xxh3_128(after[new_id]), split: None }),
            fresh,
            copied_from(page_id, new_id),
        ),
{
    let pairs = leaf_pairs(before[page_id]);
    let out = upsert(pairs, key, value);
    lemma_upsert(pairs, key, value);
    assert forall|i: int| 0 <= i < out.len() implies within((#[trigger] out[i]).0, low, high) by {
        if out[i].0 != key {
            let j = choose|j: int| 0 <= j < pairs.len() && #[trigger] pairs[j].0 == out[i].0;
            assert(within(pairs[j].0, low, high));
        }
    }
}

/// Storing a pair in a leaf that has to be split for it.
pub proof fn lemma_leaf_split(
    before: Pages,
    after: Pages,
    page_id: PageId,
    checksum: u128,
    low: Low,
    high: High,
    size: nat,
    key: Seq<u8>,
    value: Seq<u8>,
    new_id: PageId,
    right_id: PageId,
    fresh: Set<PageId>,
)
    requires
        tree_ok(before, page_id, checksum, 0, low, high, size),
        within(key, low, high),
        after.contains_key(new_id),
        after[new_id].len() == size,
        leaf_wf(after[new_id]),
        after.contains_key(right_id),
        after[right_id].len() == size,
        leaf_wf(after[right_id]),
        ({
            let pairs = upsert(leaf_pairs(before[page_id]), key, value);
            let mid = pairs.len() as int / 2;
            &&& pairs.len() >= 2
            &&& leaf_pairs(after[new_id]) == pairs.take(mid)
            &&& leaf_pairs(after[right_id]) == pairs.skip(mid)
        }),
        new_id == page_id || fresh.contains(new_id),
        !fresh.contains(page_id),
        fresh.contains(right_id),
        new_id != right_id,
    ensures
        ({
            let pairs = upsert(leaf_pairs(before[page_id]), key, value);
            let mid = pairs.len() as int / 2;
            stores(
                before,
                after,
                page_id,
                0,
                low,
                high,
                size,
                key,
                value,
                (Replacement {
                    page_id: new_id,
                    checksum: xxh3_128(after[new_id]),
                    split: Some(
                        SplitOff {
                            key: pairs[mid].0,
                            page_id: right_id,
                            checksum: xxh3_128(after[right_id]),
                        },
                    ),
                }),
                fresh,
                copied_from(page_id, new_id),
            )
        }),
{
    let old_pairs = leaf_pairs(before[page_id]);
    let pairs = upsert(old_pairs, key, value);
    let mid = pairs.len() as int / 2;
    let separator = pairs[mid].0;
    lemma_upsert(old_pairs, key, value);
    let keys = pair_keys(pairs);
    assert forall|i: int| 0 <= i < pairs.len() implies within(
        (#[trigger] pairs[i]).0,
        low,
        high,
    ) && (i < mid ==> key_lt(pairs[i].0, separator)) && (i >= mid ==> !key_lt(
        pairs[i].0,
        separator,
    )) by {
        if pairs[i].0 != key {
            let j = choose|j: int|
                0 <= j < old_pairs.len() && #[trigger] old_pairs[j].0 == pairs[i].0;
            assert(within(old_pairs[j].0, low, high));
        }
        assert(keys[i] == pairs[i].0 && keys[mid] == separator);
        if i == mid {
            lemma_key_lt_irreflexive(separator);
        } else if i > mid {
            lemma_key_lt_asymmetric(separator, pairs[i].0);
        }
    }
    assert(inside(separator, low, high)) by {
        assert(within(pairs[0].0, low, high));
        assert(within(pairs[mid].0, low, high));
        if low is Some {
            lemma_not_gt_lt(low->0, pairs[0].0, separator);
        }
    }
    let (left, right) = (pairs.take(mid), pairs.skip(mid));
    assert forall|i: int| 0 <= i < left.len() implies within(
        (#[trigger] left[i]).0,
        low,
        Some(separator),
    ) by {
        assert(left[i] == pairs[i]);
    }
    assert forall|i: int| 0 <= i < right.len() implies within(
        (#[trigger] right[i]).0,
        Some(separator),
        high,
    ) by {
        assert(right[i] == pairs[mid + i]);
    }
    let replacement = Replacement {
        page_id: new_id,
        checksum: xxh3_128(after[new_id]),
        split: Some(
            SplitOff {
                key: separator,
                page_id: right_id,
                checksum: xxh3_128(after[right_id]),
            },
        ),
    };
    assert forall|other: Seq<u8>| #[trigger]
        updated(
            replacement_get(after, replacement, 0, other),
            tree_get(before, page_id, 0, other),
            other,
            key,
            value,
        ) by {
        lemma_split_run(pairs, mid, other);
        assert(other != key ==> pairs_get(pairs, other) == pairs_get(old_pairs, other));
    }
}

/// What has to hold of the pages around a branch page that is written anew: the pair was stored
/// below it, and the page goes where no page of the tree stands but its own.
pub open spec fn branch_rewritten(
    before: Pages,
    below: Pages,
    after: Pages,
    page_id: PageId,
    checksum: u128,
    depth: nat,
    low: Low,
    high: High,
    size: nat,
    key: Seq<u8>,
    value: Seq<u8>,
    replacement: Replacement,
    below_fresh: Set<PageId>,
    below_gone: Set<PageId>,
    new_id: PageId,
    fresh: Set<PageId>,
) -> bool {
    &&& tree_ok(before, page_id, checksum, depth + 1, low, high, size)
    &&& stored_below(
        before,
        below,
        branch_children(before[page_id]),
        depth,
        low,
        high,
        size,
        key,
        value,
        replacement,
        below_fresh,
        below_gone,
    )
    &&& after.contains_key(new_id)
    &&& after[new_id].len() == size
    &&& branch_wf(after[new_id])
    &&& new_id == page_id || (fresh.contains(new_id) && !tree_pages(
        before,
        page_id,
        depth + 1,
    ).contains(new_id))
    &&& !below_fresh.contains(new_id)
    &&& below_fresh.subset_of(fresh)
    &&& !below_fresh.contains(page_id)
}

/// Pages outside what was written are kept.
pub proof fn lemma_agree_outside(a: Pages, b: Pages, changed: Set<PageId>, kept: Set<PageId>)
    requires
        changed_only(a, b, changed),
        kept.disjoint(changed),
    ensures
        agree_on(a, b, kept),
{
    assert forall|p: PageId| #[trigger] kept.contains(p) && a.contains_key(p) implies b.contains_key(
        p,
    ) && b[p] == a[p] by {
        assert(!changed.contains(p));
    }
}

/// The children of a node, once the pair was stored below, under pages that were written elsewhere.
proof fn lemma_children_carried(
    before: Pages,
    below: Pages,
    after: Pages,
    children: Seq<Child>,
    depth: nat,
    low: Low,
    high: High,
    size: nat,
    key: Seq<u8>,
    value: Seq<u8>,
    replacement: Replacement,
    below_fresh: Set<PageId>,
    below_gone: Set<PageId>,
    written: Set<PageId>,
)
    requires
        stored_below(
            before,
            below,
            children,
            depth,
            low,
            high,
            size,
            key,
            value,
            replacement,
            below_fresh,
            below_gone,
        ),
        changed_only(below, after, written),
        written.disjoint(children_pages(before, children, depth)),
        written.disjoint(below_fresh),
    ensures
        ({
            let out = children_with(children, child_index(children, key), replacement);
            &&& children_ok(after, out, depth, low, high, size)
            &&& children_store(before, after, children, out, depth, key, value, below_fresh, below_gone)
        }),
{
    let out = children_with(children, child_index(children, key), replacement);
    lemma_children_with(
        before,
        below,
        children,
        depth,
        low,
        high,
        size,
        key,
        value,
        replacement,
        below_fresh,
        below_gone,
    );
    lemma_agree_outside(below, after, written, children_pages(below, out, depth));
    lemma_children_frame(below, after, out, depth, low, high, size);
    assert forall|other: Seq<u8>| #[trigger]
        updated(
            children_get(after, out, depth, other),
            children_get(before, children, depth, other),
            other,
            key,
            value,
        ) by {
        assert(updated(
            children_get(below, out, depth, other),
            children_get(before, children, depth, other),
            other,
            key,
            value,
        ));
    }
}

/// Storing a pair below a branch page that has room for what became of the child.
pub proof fn lemma_branch_stored(
    before: Pages,
    below: Pages,
    after: Pages,
    page_id: PageId,
    checksum: u128,
    depth: nat,
    low: Low,
    high: High,
    size: nat,
    key: Seq<u8>,
    value: Seq<u8>,
    replacement: Replacement,
    below_fresh: Set<PageId>,
    below_gone: Set<PageId>,
    new_id: PageId,
    fresh: Set<PageId>,
)
    requires
        branch_rewritten(
            before,
            below,
            after,
            page_id,
            checksum,
            depth,
            low,
            high,
            size,
            key,
            value,
            replacement,
            below_fresh,
            below_gone,
            new_id,
            fresh,
        ),
        changed_only(below, after, Set::empty().insert(new_id)),
        ({
            let children = branch_children(before[page_id]);
            branch_children(after[new_id]) == children_with(
                children,
                child_index(children, key),
                replacement,
            )
        }),
    ensures
        stores(
            before,
            after,
            page_id,
            depth + 1,
            low,
            high,
            size,
            key,
            value,
            (Replacement { page_id: new_id, checksum: xxh3_128(after[new_id]), split: None }),
            fresh,
            below_gone.union(copied_from(page_id, new_id)),
        ),
{
    let children = branch_children(before[page_id]);
    let out = children_with(children, child_index(children, key), replacement);
    lemma_children_carried(
        before,
        below,
        after,
        children,
        depth,
        low,
        high,
        size,
        key,
        value,
        replacement,
        below_fresh,
        below_gone,
        Set::empty().insert(new_id),
    );
    lemma_node_over_children(after, new_id, out, depth, low, high, size);
    let done = Replacement {
        page_id: new_id,
        checksum: xxh3_128(after[new_id]),
        split: None,
    };
    assert forall|other: Seq<u8>| #[trigger]
        updated(
            replacement_get(after, done, depth + 1, other),
            tree_get(before, page_id, depth + 1, other),
            other,
            key,
            value,
        ) by {
        assert(updated(
            children_get(after, out, depth, other),
            children_get(before, children, depth, other),
            other,
            key,
            value,
        ));
        assert(tree_get(after, new_id, depth + 1, other) == children_get(after, out, depth, other));
    }
}

/// Storing a pair below a branch page that has to be split.
pub proof fn lemma_branch_split(
    before: Pages,
    below: Pages,
    after: Pages,
    page_id: PageId,
    checksum: u128,
    depth: nat,
    low: Low,
    high: High,
    size: nat,
    key: Seq<u8>,
    value: Seq<u8>,
    replacement: Replacement,
    below_fresh: Set<PageId>,
    below_gone: Set<PageId>,
    new_id: PageId,
    right_id: PageId,
    fresh: Set<PageId>,
)
    requires
        branch_rewritten(
            before,
            below,
            after,
            page_id,
            checksum,
            depth,
            low,
            high,
            size,
            key,
            value,
            replacement,
            below_fresh,
            below_gone,
            new_id,
            fresh,
        ),
        changed_only(below, after, Set::empty().insert(new_id).insert(right_id)),
        after.contains_key(right_id),
        after[right_id].len() == size,
        branch_wf(after[right_id]),
        fresh.contains(right_id),
        !below_fresh.contains(right_id),
        !tree_pages(before, page_id, depth + 1).contains(right_id),
        right_id != new_id,
        ({
            let children = branch_children(before[page_id]);
            let out = children_with(children, child_index(children, key), replacement);
            let mid = out.len() as int / 2;
            &&& out.len() >= 2
            &&& branch_children(after[new_id]) == first_key_dropped(out.take(mid))
            &&& branch_children(after[right_id]) == first_key_dropped(out.skip(mid))
        }),
    ensures
        ({
            let children = branch_children(before[page_id]);
            let out = children_with(children, child_index(children, key), replacement);
            let mid = out.len() as int / 2;
            stores(
                before,
                after,
                page_id,
                depth + 1,
                low,
                high,
                size,
                key,
                value,
                (Replacement {
                    page_id: new_id,
                    checksum: xxh3_128(after[new_id]),
                    split: Some(
                        SplitOff {
                            key: out[mid].key,
                            page_id: right_id,
                            checksum: xxh3_128(after[right_id]),
                        },
                    ),
                }),
                fresh,
                below_gone.union(copied_from(page_id, new_id)),
            )
        }),
{
    let children = branch_children(before[page_id]);
    let out = children_with(children, child_index(children, key), replacement);
    let mid = out.len() as int / 2;
    let separator = out[mid].key;
    lemma_children_carried(
        before,
        below,
        after,
        children,
        depth,
        low,
        high,
        size,
        key,
        value,
        replacement,
        below_fresh,
        below_gone,
        Set::empty().insert(new_id).insert(right_id),
    );
    lemma_two_nodes(after, out, new_id, right_id, depth, low, high, size);
    let done = Replacement {
        page_id: new_id,
        checksum: xxh3_128(after[new_id]),
        split: Some(
            SplitOff { key: separator, page_id: right_id, checksum: xxh3_128(after[right_id]) },
        ),
    };
    assert forall|other: Seq<u8>| #[trigger]
        updated(
            replacement_get(after, done, depth + 1, other),
            tree_get(before, page_id, depth + 1, other),
            other,
            key,
            value,
        ) by {
        assert(updated(
            children_get(after, out, depth, other),
            children_get(before, children, depth, other),
            other,
            key,
            value,
        ));
        assert(replacement_get(after, done, depth + 1, other) == children_get(
            after,
            out,
            depth,
            other,
        ));
    }
}

/// Two branch pages that share these children between them make two trees, one on either side of
/// the separator.
proof fn lemma_two_nodes(
    pages: Pages,
    children: Seq<Child>,
    left_id: PageId,
    right_id: PageId,
    depth: nat,
    low: Low,
    high: High,
    size: nat,
)
    requires
        children.len() >= 2,
        children_ok(pages, children, depth, low, high, size),
        pages.contains_key(left_id),
        pages[left_id].len() == size,
        branch_wf(pages[left_id]),
        branch_children(pages[left_id]) == first_key_dropped(
            children.take(children.len() as int / 2),
        ),
        pages.contains_key(right_id),
        pages[right_id].len() == size,
        branch_wf(pages[right_id]),
        branch_children(pages[right_id]) == first_key_dropped(
            children.skip(children.len() as int / 2),
        ),
        left_id != right_id,
        !children_pages(pages, children, depth).contains(left_id),
        !children_pages(pages, children, depth).contains(right_id),
    ensures
        ({
            let halves = Replacement {
                page_id: left_id,
                checksum: xxh3_128(pages[left_id]),
                split: Some(
                    SplitOff {
                        key: children[children.len() as int / 2].key,
                        page_id: right_id,
                        checksum: xxh3_128(pages[right_id]),
                    },
                ),
            };
            &&& replacement_ok(pages, halves, depth + 1, low, high, size)
            &&& replacement_pages(pages, halves, depth + 1).subset_of(
                children_pages(pages, children, depth).insert(left_id).insert(right_id),
            )
            &&& forall|key: Seq<u8>| #[trigger]
                replacement_get(pages, halves, depth + 1, key) == children_get(
                    pages,
                    children,
                    depth,
                    key,
                )
        }),
{
    let mid = children.len() as int / 2;
    let separator = children[mid].key;
    let (left, right) = (children.take(mid), children.skip(mid));
    lemma_children_halves(pages, children, mid, depth, low, high, size);
    lemma_node_over_children(pages, left_id, left, depth, low, Some(separator), size);
    lemma_node_over_children(pages, right_id, right, depth, Some(separator), high, size);
    let halves = Replacement {
        page_id: left_id,
        checksum: xxh3_128(pages[left_id]),
        split: Some(
            SplitOff { key: separator, page_id: right_id, checksum: xxh3_128(pages[right_id]) },
        ),
    };
    assert forall|key: Seq<u8>| #[trigger]
        replacement_get(pages, halves, depth + 1, key) == children_get(
            pages,
            children,
            depth,
            key,
        ) by {
        assert(tree_get(pages, left_id, depth + 1, key) == children_get(pages, left, depth, key));
        assert(tree_get(pages, right_id, depth + 1, key) == children_get(pages, right, depth, key));
    }
}

/// The two halves of a node as the children of another.
pub open spec fn halves(replacement: Replacement, split: SplitOff) -> Seq<Child> {
    seq![
        Child {
            key: Seq::<u8>::empty(),
            page_id: replacement.page_id,
            checksum: replacement.checksum,
        },
        Child { key: split.key, page_id: split.page_id, checksum: split.checksum },
    ]
}

proof fn lemma_halves_pages(pages: Pages, replacement: Replacement, split: SplitOff, depth: nat)
    requires
        replacement.split == Some(split),
    ensures
        children_pages(pages, halves(replacement, split), depth) == replacement_pages(
            pages,
            replacement,
            depth,
        ),
{
    let children = halves(replacement, split);
    let left = tree_pages(pages, replacement.page_id, depth);
    let right = tree_pages(pages, split.page_id, depth);
    assert forall|p: PageId|
        children_pages(pages, children, depth).contains(p) == left.union(right).contains(p) by {
        if left.contains(p) {
            assert(children[0].page_id == replacement.page_id);
        }
        if right.contains(p) {
            assert(children[1].page_id == split.page_id);
        }
    }
    assert(children_pages(pages, children, depth) =~= left.union(right));
}

/// The two halves of a node can stand under one node.
proof fn lemma_halves_ok(
    pages: Pages,
    replacement: Replacement,
    split: SplitOff,
    depth: nat,
    low: Low,
    high: High,
    size: nat,
)
    requires
        replacement.split == Some(split),
        replacement_ok(pages, replacement, depth, low, high, size),
    ensures
        children_ok(pages, halves(replacement, split), depth, low, high, size),
{
    let children = halves(replacement, split);
    assert(children.len() == 2);
    assert(keys_sorted(separators(children)));
    assert(children[0].page_id == replacement.page_id);
    assert(children[1].page_id == split.page_id);
    assert forall|i: int| 0 <= i < children.len() implies tree_ok(
        pages,
        (#[trigger] children[i]).page_id,
        children[i].checksum,
        depth,
        child_low(children, i, low),
        child_high(children, i, high),
        size,
    ) by {
        if i == 0 {
        } else {
            assert(i == 1);
        }
    }
}

proof fn lemma_halves_get(
    pages: Pages,
    replacement: Replacement,
    split: SplitOff,
    depth: nat,
    key: Seq<u8>,
)
    requires
        replacement.split == Some(split),
    ensures
        children_get(pages, halves(replacement, split), depth, key) == replacement_get(
            pages,
            replacement,
            depth,
            key,
        ),
{
    let children = halves(replacement, split);
    let keys = separators(children);
    assert(keys =~= seq![split.key]);
    let c = if key_lt(key, split.key) {
        0int
    } else {
        1
    };
    assert(splits_through(keys, key, c));
    lemma_rank_through(keys, key, c);
}

/// A new root over the two halves of a root that was split.
pub proof fn lemma_new_root(
    below: Pages,
    after: Pages,
    replacement: Replacement,
    split: SplitOff,
    depth: nat,
    size: nat,
    root_id: PageId,
)
    requires
        replacement.split == Some(split),
        replacement_ok(below, replacement, depth, None, None, size),
        changed_only(below, after, Set::empty().insert(root_id)),
        !replacement_pages(below, replacement, depth).contains(root_id),
        after.contains_key(root_id),
        after[root_id].len() == size,
        branch_wf(after[root_id]),
        branch_children(after[root_id]) == first_key_dropped(halves(replacement, split)),
    ensures
        tree_ok(after, root_id, xxh3_128(after[root_id]), depth + 1, None, None, size),
        tree_pages(after, root_id, depth + 1) == replacement_pages(
            below,
            replacement,
            depth,
        ).insert(root_id),
        forall|key: Seq<u8>| #[trigger]
            tree_get(after, root_id, depth + 1, key) == replacement_get(
                below,
                replacement,
                depth,
                key,
            ),
{
    let children = halves(replacement, split);
    lemma_halves_ok(below, replacement, split, depth, None, None, size);
    lemma_halves_pages(below, replacement, split, depth);
    lemma_agree_outside(
        below,
        after,
        Set::empty().insert(root_id),
        children_pages(below, children, depth),
    );
    lemma_children_frame(below, after, children, depth, None, None, size);
    lemma_node_over_children(after, root_id, children, depth, None, None, size);
    assert forall|key: Seq<u8>| #[trigger]
        tree_get(after, root_id, depth + 1, key) == replacement_get(
            below,
            replacement,
            depth,
            key,
        ) by {
        lemma_halves_get(below, replacement, split, depth, key);
        assert(tree_get(after, root_id, depth + 1, key) == children_get(
            after,
            children,
            depth,
            key,
        ));
        assert(children_get(after, children, depth, key) == children_get(
            below,
            children,
            depth,
            key,
        ));
    }
}

/// What was stored in a subtree was stored in any other state of the pages that has the subtree
/// too.
pub proof fn lemma_stores_from(
    before: Pages,
    other: Pages,
    after: Pages,
    page_id: PageId,
    checksum: u128,
    depth: nat,
    low: Low,
    high: High,
    size: nat,
    key: Seq<u8>,
    value: Seq<u8>,
    replacement: Replacement,
    fresh: Set<PageId>,
    gone: Set<PageId>,
)
    requires
        tree_ok(before, page_id, checksum, depth, low, high, size),
        agree_on(before, other, tree_pages(before, page_id, depth)),
        stores(
            other,
            after,
            page_id,
            depth,
            low,
            high,
            size,
            key,
            value,
            replacement,
            fresh,
            gone,
        ),
    ensures
        stores(
            before,
            after,
            page_id,
            depth,
            low,
            high,
            size,
            key,
            value,
            replacement,
            fresh,
            gone,
        ),
{
    lemma_tree_frame(before, other, page_id, checksum, depth, low, high, size);
    assert forall|k: Seq<u8>| #[trigger]
        updated(
            replacement_get(after, replacement, depth, k),
            tree_get(before, page_id, depth, k),
            k,
            key,
            value,
        ) by {
        assert(tree_get(other, page_id, depth, k) == tree_get(before, page_id, depth, k));
        assert(updated(
            replacement_get(after, replacement, depth, k),
            tree_get(other, page_id, depth, k),
            k,
            key,
            value,
        ));
    }
}

} // verus!
