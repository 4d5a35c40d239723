//! Finding a key in the tree, page by page.

use crate::kv::btree::branch_node::{branch_children, child_index};
use crate::kv::btree::leaf_node::leaf_pairs;
use crate::kv::btree::node::{
    is_node_error, node_kind, node_parses, node_wf, page_sound, NodePage, BRANCH_KIND, LEAF_KIND,
};
use crate::kv::btree::tree::Tree;
use crate::kv::btree::tree_model::{
    child_high, child_low, lemma_child_bounds, tree_get, tree_ok, within, High, Low, Pages,
};
use crate::kv::bytes::to_vec;
use crate::kv::entries::pairs_get;
use crate::kv::error::Result;
use crate::kv::pages::PageId;
use vstd::prelude::*;

verus! {

/// What a page says of a key.
pub enum GetStep {
    /// A leaf: this is the value under the key, if there is one.
    Value(Option<Vec<u8>>),
    /// A branch page: the key belongs below this child.
    Child(PageId),
}

/// Whether a search for `key` that stands at a page will end with `answer`: the page is the root of
/// a tree that the key belongs to, which holds that under the key.
pub open spec fn search_at(
    pages: Pages,
    page_id: PageId,
    depth: nat,
    key: Seq<u8>,
    size: nat,
    answer: Option<Seq<u8>>,
) -> bool {
    &&& exists|checksum: u128, low: Low, high: High| #[trigger]
        tree_ok(pages, page_id, checksum, depth, low, high, size) && within(key, low, high)
    &&& tree_get(pages, page_id, depth, key) == answer
}

/// One step of a search: a leaf has the answer, and a branch page leads to a page that has it.
pub proof fn law_search_step(
    pages: Pages,
    page_id: PageId,
    depth: nat,
    key: Seq<u8>,
    size: nat,
    answer: Option<Seq<u8>>,
)
    requires
        search_at(pages, page_id, depth, key, size, answer),
    ensures
        pages.contains_key(page_id),
        ({
            let page = pages[page_id];
            let children = branch_children(page);
            &&& page.len() == size
            &&& node_parses(page)
            &&& node_wf(page)
            &&& if depth == 0 {
                &&& node_kind(page) == LEAF_KIND
                &&& pairs_get(leaf_pairs(page), key) == answer
            } else {
                &&& node_kind(page) == BRANCH_KIND
                &&& search_at(
                    pages,
                    children[child_index(children, key)].page_id,
                    (depth - 1) as nat,
                    key,
                    size,
                    answer,
                )
            }
        }),
{
    let (checksum, low, high) = choose|checksum: u128, low: Low, high: High| #[trigger]
        tree_ok(pages, page_id, checksum, depth, low, high, size) && within(key, low, high);
    if depth > 0 {
        let children = branch_children(pages[page_id]);
        let i = child_index(children, key);
        lemma_child_bounds(children, key, low, high);
        assert(tree_ok(
            pages,
            children[i].page_id,
            children[i].checksum,
            (depth - 1) as nat,
            child_low(children, i, low),
            child_high(children, i, high),
            size,
        ));
    }
}

impl Tree {
    /// What a page says of a key.
    pub fn get_step(page: &[u8], key: &[u8]) -> (r: Result<GetStep>)
        requires
            page_sound(page@),
        ensures
            match r {
                Ok(GetStep::Value(value)) => {
                    &&& node_parses(page@)
                    &&& node_kind(page@) == LEAF_KIND
                    &&& pairs_get(leaf_pairs(page@), key@) == match value {
                        Some(value) => Some(value@),
                        None => None,
                    }
                },
                Ok(GetStep::Child(page_id)) => {
                    let children = branch_children(page@);
                    &&& node_parses(page@)
                    &&& node_kind(page@) == BRANCH_KIND
                    &&& page_id == children[child_index(children, key@)].page_id
                },
                Err(e) => !node_parses(page@) && is_node_error(page@, e),
            },
    {
        match NodePage::from_page(page) {
            Err(e) => Err(e),
            Ok(NodePage::Leaf(leaf_page)) => match leaf_page.get_value(key) {
                Some(value) => Ok(GetStep::Value(Some(to_vec(value)))),
                None => Ok(GetStep::Value(None)),
            },
            Ok(NodePage::Branch(branch_page)) => Ok(
                GetStep::Child(branch_page.child_page_id_for_key(key)),
            ),
        }
    }
}

} // verus!
