//! What leaf and branch pages have in common.

use crate::kv::btree::branch_node::{branch_is_well_formed, branch_parses, branch_wf, BranchPage};
use crate::kv::btree::leaf_node::{
    leaf_is_well_formed, leaf_laid_out, leaf_pairs, leaf_parses, leaf_wf, LeafBuilder, LeafPage,
};
use crate::kv::bytes::{u64_at, u64_from_prefix};
use crate::kv::entries::Pair;
use crate::kv::error::{Error, Result};
use crate::kv::text::{decimal, push_decimal};
use vstd::prelude::*;

verus! {

/// The kind of a node, the first integer of its page.
#[derive(Debug, Clone, Copy, PartialEq, Eq, Structural)]
pub enum NodeKind {
    Leaf,
    Branch,
}

/// The number that marks a leaf page.
pub const LEAF_KIND: u64 = 0;

/// The number that marks a branch page.
pub const BRANCH_KIND: u64 = 1;

/// The number that a page names its kind by.
pub open spec fn node_kind(page: Seq<u8>) -> nat {
    u64_at(page, 0)
}

/// Whether a page names itself a leaf or a branch, and holds all the entries that it counts.
pub open spec fn node_parses(page: Seq<u8>) -> bool {
    &&& page.len() >= 8
    &&& node_kind(page) == LEAF_KIND && leaf_parses(page) || node_kind(page) == BRANCH_KIND
        && branch_parses(page)
}

/// Whether a page is a node in good order.
pub open spec fn node_wf(page: Seq<u8>) -> bool {
    node_kind(page) == LEAF_KIND && leaf_wf(page) || node_kind(page) == BRANCH_KIND && branch_wf(
        page,
    )
}

/// Whether a page, if it parses as a node at all, is one in good order. Pages that this library
/// wrote are; a page that is not was damaged, and must not be searched or changed.
pub open spec fn page_sound(page: Seq<u8>) -> bool {
    node_parses(page) ==> node_wf(page)
}

/// The error for a page that does not parse.
pub open spec fn is_node_error(page: Seq<u8>, e: Error) -> bool {
    if page.len() >= 8 && node_kind(page) > BRANCH_KIND {
        e.is_database("invalid node type "@ + decimal(node_kind(page)))
    } else {
        e.is_conversion()
    }
}

impl NodeKind {
    /// Reads the kind of a page.
    pub fn parse(page: &[u8]) -> (r: Result<Self>)
        ensures
            match r {
                Ok(NodeKind::Leaf) => page@.len() >= 8 && node_kind(page@) == LEAF_KIND,
                Ok(NodeKind::Branch) => page@.len() >= 8 && node_kind(page@) == BRANCH_KIND,
                Err(e) => {
                    &&& page@.len() < 8 || node_kind(page@) > BRANCH_KIND
                    &&& is_node_error(page@, e)
                },
            },
    {
        match u64_from_prefix(page) {
            None => Err(Error::conversion()),
            Some(value) => {
                assert(page@.take(8) =~= page@.subrange(0, 8));
                if value == LEAF_KIND {
                    Ok(NodeKind::Leaf)
                } else if value == BRANCH_KIND {
                    Ok(NodeKind::Branch)
                } else {
                    let mut message = "invalid node type ".to_owned();
                    push_decimal(&mut message, value);
                    Err(Error::DatabaseError(message))
                }
            },
        }
    }
}

/// A page viewed as the node that it names itself.
pub enum NodePage<'a> {
    Leaf(LeafPage<'a>),
    Branch(BranchPage<'a>),
}

impl<'a> NodePage<'a> {
    /// Views a page as a node.
    pub fn from_page(page: &'a [u8]) -> (r: Result<Self>)
        ensures
            match r {
                Ok(NodePage::Leaf(leaf)) => {
                    &&& node_parses(page@)
                    &&& node_kind(page@) == LEAF_KIND
                    &&& leaf.inv()
                    &&& leaf.page() == page@
                },
                Ok(NodePage::Branch(branch)) => {
                    &&& node_parses(page@)
                    &&& node_kind(page@) == BRANCH_KIND
                    &&& branch.inv()
                    &&& branch.page() == page@
                },
                Err(e) => !node_parses(page@) && is_node_error(page@, e),
            },
    {
        match NodeKind::parse(page) {
            Err(e) => Err(e),
            Ok(NodeKind::Leaf) => match LeafPage::from_page(page) {
                Ok(leaf) => Ok(NodePage::Leaf(leaf)),
                Err(e) => Err(e),
            },
            Ok(NodeKind::Branch) => match BranchPage::from_page(page) {
                Ok(branch) => Ok(NodePage::Branch(branch)),
                Err(e) => Err(e),
            },
        }
    }
}

/// Whether a page is sound.
pub fn page_is_sound(page: &[u8]) -> (r: bool)
    ensures
        r == page_sound(page@),
{
    match NodePage::from_page(page) {
        Err(_) => true,
        Ok(NodePage::Leaf(leaf)) => leaf_is_well_formed(&leaf),
        Ok(NodePage::Branch(branch)) => branch_is_well_formed(&branch),
    }
}

/// An empty leaf on a page of this size.
pub fn get_empty_leaf_page(page_size: usize) -> (r: Vec<u8>)
    requires
        page_size >= 24,
    ensures
        r@.len() == page_size,
        leaf_wf(r@),
        leaf_pairs(r@) == Seq::<Pair>::empty(),
        leaf_laid_out(r@, Seq::new(page_size as nat, |i: int| 0u8), Seq::empty()),
{
    let mut page: Vec<u8> = vec![0; page_size];
    assert(page@ =~= Seq::new(page_size as nat, |i: int| 0u8));
    LeafBuilder::empty().build_page_at_buf(&mut page);
    page
}

} // verus!
