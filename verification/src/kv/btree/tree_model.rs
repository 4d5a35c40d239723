//! What a tree of pages is, and what it holds.
//!
//! All of this is about a map from page ids to page contents, so that it can be said of the file, of
//! the file under a transaction's changes, and of what the file would be after a crash.

use crate::kv::btree::branch_node::{
    add_child, branch_children, branch_wf, child_index, separators, set_child, Child,
};
use crate::kv::btree::leaf_node::{leaf_pairs, leaf_wf};
use crate::kv::entries::pairs_get;
use crate::kv::keys::{
    key_lt, keys_sorted, lemma_key_lt_asymmetric, lemma_key_lt_transitive, lemma_rank,
    lemma_rank_through_splits, splits_below,
};
use crate::kv::pages::checksum::xxh3_128;
use crate::kv::pages::PageId;
use vstd::prelude::*;

verus! {

/// The contents of pages.
pub type Pages = Map<PageId, Seq<u8>>;

/// A lower bound that keys may reach, or none.
pub type Low = Option<Seq<u8>>;

/// An upper bound that keys stay below, or none.
pub type High = Option<Seq<u8>>;

/// Whether `key` lies between the bounds.
pub open spec fn within(key: Seq<u8>, low: Low, high: High) -> bool {
    &&& low matches Some(bound) ==> !key_lt(key, bound)
    &&& high matches Some(bound) ==> key_lt(key, bound)
}

/// Whether `key` lies between the bounds and is not the lower one.
pub open spec fn inside(key: Seq<u8>, low: Low, high: High) -> bool {
    &&& low matches Some(bound) ==> key_lt(bound, key)
    &&& high matches Some(bound) ==> key_lt(key, bound)
}

/// The lower bound of the keys under child `i`.
pub open spec fn child_low(children: Seq<Child>, i: int, low: Low) -> Low {
    if i == 0 {
        low
    } else {
        Some(children[i].key)
    }
}

/// The upper bound of the keys under child `i`.
pub open spec fn child_high(children: Seq<Child>, i: int, high: High) -> High {
    if i == children.len() - 1 {
        high
    } else {
        Some(children[i + 1].key)
    }
}

/// The pages of the tree of this depth under `page_id`.
pub open spec fn tree_pages(pages: Pages, page_id: PageId, depth: nat) -> Set<PageId>
    decreases depth, 0nat,
{
    if depth == 0 {
        Set::empty().insert(page_id)
    } else {
        children_pages(pages, branch_children(pages[page_id]), (depth - 1) as nat).insert(page_id)
    }
}

/// The pages of the trees under these children.
pub open spec fn children_pages(pages: Pages, children: Seq<Child>, depth: nat) -> Set<PageId>
    decreases depth, 1nat,
{
    Set::new(
        |p: PageId|
            exists|i: int|
                0 <= i < children.len() && tree_pages(
                    pages,
                    (#[trigger] children[i]).page_id,
                    depth,
                ).contains(p),
    )
}

/// Whether a tree of this depth stands under `page_id`: every page is there, has the size of a page
/// and the checksum that its parent holds; all leaves are equally deep; every key lies between the
/// bounds that the separators above it set; and no page occurs twice.
pub open spec fn tree_ok(
    pages: Pages,
    page_id: PageId,
    checksum: u128,
    depth: nat,
    low: Low,
    high: High,
    size: nat,
) -> bool
    decreases depth, 0nat,
{
    &&& pages.contains_key(page_id)
    &&& pages[page_id].len() == size
    &&& xxh3_128(pages[page_id]) == checksum
    &&& if depth == 0 {
        &&& leaf_wf(pages[page_id])
        &&& forall|i: int|
            0 <= i < leaf_pairs(pages[page_id]).len() ==> within(
                (#[trigger] leaf_pairs(pages[page_id])[i]).0,
                low,
                high,
            )
    } else {
        &&& branch_wf(pages[page_id])
        &&& children_ok(
            pages,
            branch_children(pages[page_id]),
            (depth - 1) as nat,
            low,
            high,
            size,
        )
        &&& !children_pages(
            pages,
            branch_children(pages[page_id]),
            (depth - 1) as nat,
        ).contains(page_id)
    }
}

/// Whether the trees under these children can stand under one node.
pub open spec fn children_ok(
    pages: Pages,
    children: Seq<Child>,
    depth: nat,
    low: Low,
    high: High,
    size: nat,
) -> bool
    decreases depth, 1nat,
{
    &&& children.len() >= 1
    &&& keys_sorted(separators(children))
    &&& forall|i: int| 1 <= i < children.len() ==> inside((#[trigger] children[i]).key, low, high)
    &&& forall|i: int|
        0 <= i < children.len() ==> tree_ok(
            pages,
            (#[trigger] children[i]).page_id,
            children[i].checksum,
            depth,
            child_low(children, i, low),
            child_high(children, i, high),
            size,
        )
    &&& forall|i: int, j: int|
        0 <= i < j < children.len() ==> tree_pages(
            pages,
            (#[trigger] children[i]).page_id,
            depth,
        ).disjoint(tree_pages(pages, (#[trigger] children[j]).page_id, depth))
}

/// The value under `key` in the tree under `page_id`.
pub open spec fn tree_get(pages: Pages, page_id: PageId, depth: nat, key: Seq<u8>) -> Option<
    Seq<u8>,
>
    decreases depth,
{
    if depth == 0 {
        pairs_get(leaf_pairs(pages[page_id]), key)
    } else {
        let children = branch_children(pages[page_id]);
        tree_get(
            pages,
            children[child_index(children, key)].page_id,
            (depth - 1) as nat,
            key,
        )
    }
}

/// The value under `key` in the trees under these children.
pub open spec fn children_get(
    pages: Pages,
    children: Seq<Child>,
    depth: nat,
    key: Seq<u8>,
) -> Option<Seq<u8>> {
    tree_get(pages, children[child_index(children, key)].page_id, depth, key)
}

/// Whether `b` holds the pages of `ids` as `a` holds them.
pub open spec fn agree_on(a: Pages, b: Pages, ids: Set<PageId>) -> bool {
    forall|p: PageId| #[trigger]
        ids.contains(p) ==> (a.contains_key(p) ==> b.contains_key(p) && b[p] == a[p])
}

/// Whether `b` holds the pages that are not among `ids` as `a` holds them.
pub open spec fn changed_only(a: Pages, b: Pages, ids: Set<PageId>) -> bool {
    forall|p: PageId|
        !(#[trigger] ids.contains(p)) ==> (a.contains_key(p) ==> b.contains_key(p) && b[p] == a[p])
}

/// A tree depends on its own pages alone.
pub proof fn lemma_tree_frame(
    a: Pages,
    b: Pages,
    page_id: PageId,
    checksum: u128,
    depth: nat,
    low: Low,
    high: High,
    size: nat,
)
    requires
        tree_ok(a, page_id, checksum, depth, low, high, size),
        agree_on(a, b, tree_pages(a, page_id, depth)),
    ensures
        tree_pages(b, page_id, depth) == tree_pages(a, page_id, depth),
        tree_ok(b, page_id, checksum, depth, low, high, size),
        forall|key: Seq<u8>| #[trigger]
            tree_get(b, page_id, depth, key) == tree_get(a, page_id, depth, key),
    decreases depth, 0nat,
{
    assert(tree_pages(a, page_id, depth).contains(page_id));
    assert(b[page_id] == a[page_id]);
    if depth > 0 {
        let children = branch_children(a[page_id]);
        let d = (depth - 1) as nat;
        assert forall|p: PageId| #[trigger] children_pages(a, children, d).contains(p)
            && a.contains_key(p) implies b.contains_key(p) && b[p] == a[p] by {
            assert(tree_pages(a, page_id, depth).contains(p));
        }
        lemma_children_frame(a, b, children, d, low, high, size);
        assert(tree_pages(b, page_id, depth) =~= tree_pages(a, page_id, depth));
        assert forall|key: Seq<u8>| #[trigger] tree_get(b, page_id, depth, key) == tree_get(
            a,
            page_id,
            depth,
            key,
        ) by {
            assert(children_get(b, children, d, key) == children_get(a, children, d, key));
        }
    }
}

/// The trees under some children depend on their own pages alone.
pub proof fn lemma_children_frame(
    a: Pages,
    b: Pages,
    children: Seq<Child>,
    depth: nat,
    low: Low,
    high: High,
    size: nat,
)
    requires
        children_ok(a, children, depth, low, high, size),
        agree_on(a, b, children_pages(a, children, depth)),
    ensures
        children_pages(b, children, depth) == children_pages(a, children, depth),
        children_ok(b, children, depth, low, high, size),
        forall|key: Seq<u8>| #[trigger]
            children_get(b, children, depth, key) == children_get(a, children, depth, key),
    decreases depth, 2nat,
{
    assert forall|i: int| 0 <= i < children.len() implies {
        &&& tree_pages(b, (#[trigger] children[i]).page_id, depth) == tree_pages(
            a,
            children[i].page_id,
            depth,
        )
        &&& tree_ok(
            b,
            children[i].page_id,
            children[i].checksum,
            depth,
            child_low(children, i, low),
            child_high(children, i, high),
            size,
        )
    } by {
        lemma_child_frame(a, b, children, depth, low, high, size, i);
    }
    assert(children_pages(b, children, depth) =~= children_pages(a, children, depth));
    assert forall|key: Seq<u8>| #[trigger]
        children_get(b, children, depth, key) == children_get(a, children, depth, key) by {
        lemma_rank_through_splits(separators(children), key);
        lemma_child_frame(
            a,
            b,
            children,
            depth,
            low,
            high,
            size,
            child_index(children, key),
        );
    }
}

proof fn lemma_child_frame(
    a: Pages,
    b: Pages,
    children: Seq<Child>,
    depth: nat,
    low: Low,
    high: High,
    size: nat,
    i: int,
)
    requires
        children_ok(a, children, depth, low, high, size),
        agree_on(a, b, children_pages(a, children, depth)),
        0 <= i < children.len(),
    ensures
        tree_pages(b, children[i].page_id, depth) == tree_pages(a, children[i].page_id, depth),
        tree_ok(
            b,
            children[i].page_id,
            children[i].checksum,
            depth,
            child_low(children, i, low),
            child_high(children, i, high),
            size,
        ),
        forall|key: Seq<u8>| #[trigger]
            tree_get(b, children[i].page_id, depth, key) == tree_get(
                a,
                children[i].page_id,
                depth,
                key,
            ),
    decreases depth, 1nat,
{
    let id = children[i].page_id;
    assert forall|p: PageId| #[trigger] tree_pages(a, id, depth).contains(p)
        && a.contains_key(p) implies b.contains_key(p) && b[p] == a[p] by {
        assert(children_pages(a, children, depth).contains(p));
    }
    lemma_tree_frame(
        a,
        b,
        id,
        children[i].checksum,
        depth,
        child_low(children, i, low),
        child_high(children, i, high),
        size,
    );
}

/// A page that a node was split off to, and the lowest key that may be found there.
pub struct SplitOff {
    pub key: Seq<u8>,
    pub page_id: PageId,
    pub checksum: u128,
}

/// What became of a subtree that a pair was inserted into: the page that stands in its place now,
/// and a second one where the node had to be split.
pub struct Replacement {
    pub page_id: PageId,
    pub checksum: u128,
    pub split: Option<SplitOff>,
}

/// Whether `found` is what a tree should hold under `other`, once `value` is stored under `key`.
pub open spec fn updated(
    found: Option<Seq<u8>>,
    before: Option<Seq<u8>>,
    other: Seq<u8>,
    key: Seq<u8>,
    value: Seq<u8>,
) -> bool {
    found == if other == key {
        Some(value)
    } else {
        before
    }
}

/// The value under `key` in what became of a subtree.
pub open spec fn replacement_get(
    pages: Pages,
    replacement: Replacement,
    depth: nat,
    key: Seq<u8>,
) -> Option<Seq<u8>> {
    match replacement.split {
        None => tree_get(pages, replacement.page_id, depth, key),
        Some(split) => if key_lt(key, split.key) {
            tree_get(pages, replacement.page_id, depth, key)
        } else {
            tree_get(pages, split.page_id, depth, key)
        },
    }
}

/// The pages of what became of a subtree.
pub open spec fn replacement_pages(pages: Pages, replacement: Replacement, depth: nat) -> Set<
    PageId,
> {
    match replacement.split {
        None => tree_pages(pages, replacement.page_id, depth),
        Some(split) => tree_pages(pages, replacement.page_id, depth).union(
            tree_pages(pages, split.page_id, depth),
        ),
    }
}

/// Whether what became of a subtree is one tree, or two trees on either side of the split.
pub open spec fn replacement_ok(
    pages: Pages,
    replacement: Replacement,
    depth: nat,
    low: Low,
    high: High,
    size: nat,
) -> bool {
    match replacement.split {
        None => tree_ok(
            pages,
            replacement.page_id,
            replacement.checksum,
            depth,
            low,
            high,
            size,
        ),
        Some(split) => {
            &&& inside(split.key, low, high)
            &&& tree_ok(
                pages,
                replacement.page_id,
                replacement.checksum,
                depth,
                low,
                Some(split.key),
                size,
            )
            &&& tree_ok(
                pages,
                split.page_id,
                split.checksum,
                depth,
                Some(split.key),
                high,
                size,
            )
            &&& tree_pages(pages, replacement.page_id, depth).disjoint(
                tree_pages(pages, split.page_id, depth),
            )
        },
    }
}

/// Whether `replacement`, in `after`, is the subtree that stood under `page_id` in `before` with
/// `value` stored under `key`, made of its own old pages, without those in `gone`, and of pages
/// from `fresh`.
pub open spec fn stores(
    before: Pages,
    after: Pages,
    page_id: PageId,
    depth: nat,
    low: Low,
    high: High,
    size: nat,
    key: Seq<u8>,
    value: Seq<u8>,
    replacement: Replacement,
    fresh: Set<PageId>,
    gone: Set<PageId>,
) -> bool {
    &&& replacement_ok(after, replacement, depth, low, high, size)
    &&& forall|other: Seq<u8>| #[trigger]
        updated(
            replacement_get(after, replacement, depth, other),
            tree_get(before, page_id, depth, other),
            other,
            key,
            value,
        )
    &&& gone.subset_of(tree_pages(before, page_id, depth))
    &&& replacement_pages(after, replacement, depth).subset_of(
        tree_pages(before, page_id, depth).difference(gone).union(fresh),
    )
}

/// The children of a node after what became of child `i`.
pub open spec fn children_with(
    children: Seq<Child>,
    i: int,
    replacement: Replacement,
) -> Seq<Child> {
    let replaced = set_child(children, i, replacement.page_id, replacement.checksum);
    match replacement.split {
        None => replaced,
        Some(split) => add_child(replaced, split.key, split.page_id, split.checksum),
    }
}

/// A key belongs under the child that a search for it goes to.
pub proof fn lemma_child_bounds(children: Seq<Child>, key: Seq<u8>, low: Low, high: High)
    requires
        children.len() >= 1,
        keys_sorted(separators(children)),
        within(key, low, high),
    ensures
        ({
            let i = child_index(children, key);
            &&& 0 <= i < children.len()
            &&& within(key, child_low(children, i, low), child_high(children, i, high))
        }),
{
    let keys = separators(children);
    let i = child_index(children, key);
    lemma_rank_through_splits(keys, key);
    if i > 0 {
        assert(keys[i - 1] == children[i].key);
    }
    if i < keys.len() {
        assert(keys[i] == children[i + 1].key);
    }
}

/// A separator that lies inside the bounds of child `i` goes right behind that child.
pub proof fn lemma_add_child_position(
    children: Seq<Child>,
    i: int,
    key: Seq<u8>,
    low: Low,
    high: High,
    page_id: PageId,
    checksum: u128,
)
    requires
        children.len() >= 1,
        keys_sorted(separators(children)),
        0 <= i < children.len(),
        inside(key, child_low(children, i, low), child_high(children, i, high)),
    ensures
        add_child(children, key, page_id, checksum) == children.insert(
            i + 1,
            Child { key, page_id, checksum },
        ),
{
    let keys = separators(children);
    assert forall|j: int| 0 <= j < i implies key_lt(#[trigger] keys[j], key) by {
        assert(keys[i - 1] == children[i].key);
        if j < i - 1 {
            lemma_key_lt_transitive(keys[j], keys[i - 1], key);
        }
    }
    assert forall|j: int| i <= j < keys.len() implies !key_lt(#[trigger] keys[j], key) && keys[j]
        != key by {
        assert(keys[i] == children[i + 1].key);
        if i < j {
            lemma_key_lt_transitive(key, keys[i], keys[j]);
        }
        lemma_key_lt_asymmetric(key, keys[j]);
    }
    assert(splits_below(keys, key, i));
    lemma_rank(keys, key, i);
}

} // verus!
