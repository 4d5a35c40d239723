//! Whether the pages of a tree are those that were committed.

use crate::kv::btree::branch_node::{branch_children, branch_count};
use crate::kv::btree::node::{is_node_error, node_kind, node_parses, NodePage, BRANCH_KIND};
use crate::kv::btree::tree_model::{child_high, child_low, tree_ok, High, Low, Pages};
use crate::kv::error::{Error, Result};
use crate::kv::pages::checksum::{checksum_page, xxh3_128};
use crate::kv::pages::page_io::{PageIO, PageRead};
use crate::kv::pages::PageId;
use crate::kv::text::{decimal, push_decimal};
use crate::kv::transactions::write_transaction::read_agrees;
use vstd::prelude::*;

verus! {

/// Whether the page under `page_id` has this checksum and is a node, and so are, down to a depth,
/// all pages below it.
pub open spec fn intact_to(pages: Pages, page_id: PageId, checksum: u128, depth: nat) -> bool
    decreases depth,
{
    &&& pages.contains_key(page_id)
    &&& xxh3_128(pages[page_id]) == checksum
    &&& node_parses(pages[page_id])
    &&& node_kind(pages[page_id]) == BRANCH_KIND ==> depth > 0 && forall|i: int|
        0 <= i < branch_children(pages[page_id]).len() ==> intact_to(
            pages,
            (#[trigger] branch_children(pages[page_id])[i]).page_id,
            branch_children(pages[page_id])[i].checksum,
            (depth - 1) as nat,
        )
}

/// Whether the page under `page_id` has this checksum and is a node, and so are all pages below it.
pub open spec fn intact(pages: Pages, page_id: PageId, checksum: u128) -> bool {
    exists|depth: nat| intact_to(pages, page_id, checksum, depth)
}

/// Whether all of these are intact.
pub open spec fn all_intact(pages: Pages, pending: Seq<(PageId, u128)>) -> bool {
    forall|i: int|
        0 <= i < pending.len() ==> intact(pages, (#[trigger] pending[i]).0, pending[i].1)
}

/// The children of a node with their checksums.
pub open spec fn child_checks(page: Seq<u8>) -> Seq<(PageId, u128)> {
    if node_kind(page) == BRANCH_KIND {
        Seq::new(
            branch_children(page).len(),
            |i: int| (branch_children(page)[i].page_id, branch_children(page)[i].checksum),
        )
    } else {
        Seq::empty()
    }
}

/// What is intact down to a depth is intact down to a greater one.
proof fn lemma_intact_deeper(pages: Pages, page_id: PageId, checksum: u128, depth: nat, more: nat)
    requires
        intact_to(pages, page_id, checksum, depth),
        depth <= more,
    ensures
        intact_to(pages, page_id, checksum, more),
    decreases depth,
{
    if node_kind(pages[page_id]) == BRANCH_KIND {
        let children = branch_children(pages[page_id]);
        assert forall|i: int| 0 <= i < children.len() implies intact_to(
            pages,
            (#[trigger] children[i]).page_id,
            children[i].checksum,
            (more - 1) as nat,
        ) by {
            lemma_intact_deeper(
                pages,
                children[i].page_id,
                children[i].checksum,
                (depth - 1) as nat,
                (more - 1) as nat,
            );
        }
    }
}

/// A depth down to which the first `n` of these are intact.
proof fn lemma_common_depth(pages: Pages, pending: Seq<(PageId, u128)>, n: nat) -> (depth: nat)
    requires
        all_intact(pages, pending),
        n <= pending.len(),
    ensures
        forall|i: int|
            0 <= i < n ==> intact_to(pages, (#[trigger] pending[i]).0, pending[i].1, depth),
    decreases n,
{
    if n == 0 {
        0
    } else {
        let rest = lemma_common_depth(pages, pending, (n - 1) as nat);
        let last = pending[n - 1];
        let own = choose|depth: nat| intact_to(pages, last.0, last.1, depth);
        let depth = if rest >= own {
            rest
        } else {
            own
        };
        assert forall|i: int| 0 <= i < n implies intact_to(
            pages,
            (#[trigger] pending[i]).0,
            pending[i].1,
            depth,
        ) by {
            if i < n - 1 {
                lemma_intact_deeper(pages, pending[i].0, pending[i].1, rest, depth);
            } else {
                lemma_intact_deeper(pages, last.0, last.1, own, depth);
            }
        }
        depth
    }
}

/// A page is intact if and only if it has its checksum, is a node, and its children are intact.
pub proof fn law_intact_step(pages: Pages, page_id: PageId, checksum: u128)
    ensures
        intact(pages, page_id, checksum) <==> {
            &&& pages.contains_key(page_id)
            &&& xxh3_128(pages[page_id]) == checksum
            &&& node_parses(pages[page_id])
            &&& all_intact(pages, child_checks(pages[page_id]))
        },
{
    let page = pages[page_id];
    let checks = child_checks(page);
    let children = branch_children(page);
    if intact(pages, page_id, checksum) {
        let depth = choose|depth: nat| intact_to(pages, page_id, checksum, depth);
        assert forall|i: int| 0 <= i < checks.len() implies intact(
            pages,
            (#[trigger] checks[i]).0,
            checks[i].1,
        ) by {
            assert(intact_to(
                pages,
                children[i].page_id,
                children[i].checksum,
                (depth - 1) as nat,
            ));
        }
    }
    if pages.contains_key(page_id) && xxh3_128(page) == checksum && node_parses(page)
        && all_intact(pages, checks) {
        let depth = lemma_common_depth(pages, checks, checks.len());
        if node_kind(page) == BRANCH_KIND {
            assert forall|i: int| 0 <= i < children.len() implies intact_to(
                pages,
                (#[trigger] children[i]).page_id,
                children[i].checksum,
                depth,
            ) by {
                assert(checks[i] == (children[i].page_id, children[i].checksum));
            }
        }
        assert(intact_to(pages, page_id, checksum, depth + 1));
    }
}

/// Whether a route leads from one page to another, which is to have this checksum: at each page it is
/// said which child to go to next.
pub open spec fn leads_down(
    pages: Pages,
    route: Seq<int>,
    from: (PageId, u128),
    to: (PageId, u128),
) -> bool
    decreases route.len(),
{
    if route.len() == 0 {
        to == from
    } else {
        let children = branch_children(pages[from.0]);
        let child = children[route[0]];
        &&& node_kind(pages[from.0]) == BRANCH_KIND
        &&& 0 <= route[0] < branch_count(pages[from.0])
        &&& leads_down(pages, route.drop_first(), (child.page_id, child.checksum), to)
    }
}

/// Where a tree is intact, every page that can be reached from its root is there, has the checksum that
/// the page above it names, and is a node. So a page that was damaged anywhere in the tree is found.
pub proof fn law_intact_covers_every_page(
    pages: Pages,
    root: (PageId, u128),
    route: Seq<int>,
    page: (PageId, u128),
)
    requires
        intact(pages, root.0, root.1),
        leads_down(pages, route, root, page),
    ensures
        pages.contains_key(page.0),
        xxh3_128(pages[page.0]) == page.1,
        node_parses(pages[page.0]),
    decreases route.len(),
{
    law_intact_step(pages, root.0, root.1);
    if route.len() > 0 {
        let i = route[0];
        let child = branch_children(pages[root.0])[i];
        assert(child_checks(pages[root.0])[i] == (child.page_id, child.checksum));
        law_intact_covers_every_page(
            pages,
            (child.page_id, child.checksum),
            route.drop_first(),
            page,
        );
    }
}

/// A page passes if, and only if, it has the checksum that it should have, and is a node; what is left to
/// be verified then is its children, all of them and in their order, if it is a branch page.
pub proof fn law_every_child_is_verified(check: (PageId, u128), page: Seq<u8>)
    ensures
        page_passes(check, page) <==> xxh3_128(page) == check.1 && node_parses(page),
        node_kind(page) != BRANCH_KIND ==> child_checks(page).len() == 0,
        node_kind(page) == BRANCH_KIND ==> {
            &&& child_checks(page).len() == branch_count(page)
            &&& forall|i: int|
                0 <= i < branch_count(page) ==> {
                    let child = branch_children(page)[i];
                    (#[trigger] child_checks(page)[i]).0 == child.page_id
                        && child_checks(page)[i].1 == child.checksum
                }
        },
{
}

/// A tree is intact.
pub proof fn law_tree_is_intact(
    pages: Pages,
    page_id: PageId,
    checksum: u128,
    depth: nat,
    low: Low,
    high: High,
    size: nat,
)
    requires
        tree_ok(pages, page_id, checksum, depth, low, high, size),
    ensures
        intact_to(pages, page_id, checksum, depth),
        intact(pages, page_id, checksum),
    decreases depth,
{
    if depth > 0 {
        let children = branch_children(pages[page_id]);
        assert forall|i: int| 0 <= i < children.len() implies intact_to(
            pages,
            (#[trigger] children[i]).page_id,
            children[i].checksum,
            (depth - 1) as nat,
        ) by {
            law_tree_is_intact(
                pages,
                children[i].page_id,
                children[i].checksum,
                (depth - 1) as nat,
                child_low(children, i, low),
                child_high(children, i, high),
                size,
            );
        }
    }
    assert(intact_to(pages, page_id, checksum, depth));
}

/// The message for a page that does not have its checksum.
pub open spec fn mismatch_text(page_id: PageId) -> Seq<char> {
    "Checksum mismatch for page "@ + decimal(page_id as nat)
}

/// Whether a page has the checksum that it should have, and is a node.
pub open spec fn page_passes(check: (PageId, u128), page: Seq<u8>) -> bool {
    xxh3_128(page) == check.1 && node_parses(page)
}

/// The error for a page that does not pass.
pub open spec fn is_check_error(check: (PageId, u128), page: Seq<u8>, e: Error) -> bool {
    if xxh3_128(page) != check.1 {
        e.is_database(mismatch_text(check.0))
    } else {
        is_node_error(page, e)
    }
}

/// How a verification goes on.
pub enum VerifyStep {
    /// All pages are as they should be.
    Done,
    /// One more page is.
    Moved,
    /// So many bytes are to be read from there in the file.
    Load { page_id: PageId, offset: u64, len: usize },
}

/// Verifies the pages of a tree, each before those below it, from the first to the last.
pub struct TreeVerifier {
    pending: Vec<(PageId, u128)>,
}

impl TreeVerifier {
    /// The pages that are left, the next one first, and the checksums that they should have.
    pub closed spec fn pending(self) -> Seq<(PageId, u128)> {
        self.pending@.reverse()
    }

    /// The page that comes next.
    pub open spec fn next(self) -> Option<PageId> {
        if self.pending().len() > 0 {
            Some(self.pending()[0].0)
        } else {
            None
        }
    }

    /// A verification of the tree under `page_id`.
    pub fn new(page_id: PageId, expected_checksum: u128) -> (r: Self)
        ensures
            r.pending() == seq![(page_id, expected_checksum)],
    {
        let mut pending: Vec<(PageId, u128)> = Vec::new();
        pending.push((page_id, expected_checksum));
        assert(pending@.reverse() =~= seq![(page_id, expected_checksum)]);
        TreeVerifier { pending }
    }

    /// The page that comes next.
    pub fn next_page_id(&self) -> (r: Option<PageId>)
        ensures
            r == self.next(),
    {
        if self.pending.len() == 0 {
            return None;
        }
        Some(self.pending[self.pending.len() - 1].0)
    }

    /// Verifies one more page. A page that is not at hand is asked for, and is to be passed in with
    /// the next call.
    pub fn verify_pages(&mut self, pages: &mut PageIO, loaded: Option<Vec<u8>>) -> (r: Result<
        VerifyStep,
    >)
        requires
            old(pages).size() <= usize::MAX,
            old(self).pending().len() > 0 ==> old(self).pending()[0].0 * old(pages).size()
                <= u64::MAX,
            loaded matches Some(data) ==> data@.len() == old(pages).size(),
        ensures
            match r {
                Ok(VerifyStep::Done) => {
                    &&& old(self).pending().len() == 0
                    &&& *final(self) == *old(self)
                },
                Ok(VerifyStep::Load { page_id, offset, len }) => {
                    &&& loaded is None
                    &&& old(self).pending().len() > 0
                    &&& page_id == old(self).pending()[0].0
                    &&& offset == page_id * old(pages).size()
                    &&& len == old(pages).size()
                    &&& *final(self) == *old(self)
                },
                Ok(VerifyStep::Moved) => {
                    &&& old(self).pending().len() > 0
                    &&& exists|bytes: Seq<u8>| #[trigger]
                        page_checked(*old(pages), old(self).pending()[0].0, loaded, bytes)
                            && page_passes(old(self).pending()[0], bytes)
                            && final(self).pending() == child_checks(bytes)
                            + old(self).pending().drop_first()
                },
                Err(e) => {
                    &&& *final(self) == *old(self)
                    &&& old(self).pending().len() > 0
                    &&& exists|bytes: Seq<u8>| #[trigger]
                        page_checked(*old(pages), old(self).pending()[0].0, loaded, bytes)
                            && !page_passes(old(self).pending()[0], bytes) && is_check_error(
                            old(self).pending()[0],
                            bytes,
                            e,
                        )
                },
            },
            final(pages).size() == old(pages).size(),
            final(pages).cache_capacity() == old(pages).cache_capacity(),
            forall|file: Pages|
                old(pages).reflects(file) && #[trigger] read_agrees(
                    old(self).next(),
                    loaded,
                    file,
                ) ==> {
                    &&& final(pages).reflects(file)
                    &&& match r {
                        Ok(_) => all_intact(file, old(self).pending()) == all_intact(
                            file,
                            final(self).pending(),
                        ),
                        Err(_) => !all_intact(file, old(self).pending()),
                    }
                },
    {
        let ghost before = self.pending();
        let ghost pages_before = *pages;
        if self.pending.len() == 0 {
            return Ok(VerifyStep::Done);
        }
        let (page_id, expected_checksum) = self.pending[self.pending.len() - 1];
        assert(before[0] == (page_id, expected_checksum));
        let page = match loaded {
            Some(data) => pages.finish_read(page_id, data),
            None => match pages.read_page(page_id) {
                PageRead::Cached(page) => page,
                PageRead::Load { offset, len } => return Ok(
                    VerifyStep::Load { page_id, offset, len },
                ),
            },
        };
        let ghost bytes = page.bytes();
        assert(page_checked(pages_before, page_id, loaded, bytes));
        proof {
            assert forall|file: Pages|
                pages_before.reflects(file) && #[trigger] read_agrees(
                    Some(page_id),
                    loaded,
                    file,
                ) implies {
                &&& file.contains_key(page_id)
                &&& file[page_id] == bytes
                &&& all_intact(file, before) == (xxh3_128(bytes) == expected_checksum
                    && node_parses(bytes) && all_intact(
                    file,
                    child_checks(bytes) + before.drop_first(),
                ))
            } by {
                lemma_pending_step(file, before, bytes);
            }
        }
        if checksum_page(page.data()) != expected_checksum {
            let mut message = "Checksum mismatch for page ".to_owned();
            push_decimal(&mut message, page_id);
            return Err(Error::DatabaseError(message));
        }
        match NodePage::from_page(page.data()) {
            Err(e) => Err(e),
            Ok(NodePage::Leaf(_)) => {
                self.pending.pop();
                proof {
                    assert(self.pending() =~= child_checks(bytes) + before.drop_first());
                }
                Ok(VerifyStep::Moved)
            },
            Ok(NodePage::Branch(branch_page)) => {
                self.pending.pop();
                let ghost rest = self.pending@;
                let ghost checks = child_checks(bytes);
                let mut left = branch_page.num_entries();
                let count = left;
                while left > 0
                    invariant
                        left <= count,
                        branch_page.inv(),
                        branch_page.page() == bytes,
                        count == branch_count(bytes),
                        node_kind(bytes) == BRANCH_KIND,
                        checks == child_checks(bytes),
                        checks.len() == count,
                        self.pending@ == rest + checks.skip(left as int).reverse(),
                    decreases left,
                {
                    left = left - 1;
                    let entry = (
                        branch_page.child_page_id_at_index(left),
                        branch_page.child_page_checksum_at_index(left),
                    );
                    self.pending.push(entry);
                    proof {
                        assert(entry == checks[left as int]);
                        assert(checks.skip(left as int) =~= seq![checks[left as int]]
                            + checks.skip(left + 1));
                        assert(self.pending@ =~= rest + checks.skip(left as int).reverse());
                    }
                }
                proof {
                    assert(checks.skip(0) =~= checks);
                    assert(before.drop_first() =~= rest.reverse());
                    assert(self.pending() =~= checks + before.drop_first());
                }
                Ok(VerifyStep::Moved)
            },
        }
    }
}

/// Whether `bytes` is what is found on a page: what was read from the file, else what the cache hands
/// out.
pub open spec fn page_checked(
    pages: PageIO,
    page_id: PageId,
    loaded: Option<Vec<u8>>,
    bytes: Seq<u8>,
) -> bool {
    match loaded {
        Some(data) => data@ == bytes,
        None => pages.cached_pages().contains_key(page_id) && pages.cached_pages()[page_id] == bytes,
    }
}

/// One step of a verification leaves open what was open before.
proof fn lemma_pending_step(pages: Pages, pending: Seq<(PageId, u128)>, page: Seq<u8>)
    requires
        pending.len() > 0,
        pages.contains_key(pending[0].0),
        pages[pending[0].0] == page,
    ensures
        all_intact(pages, pending) == (xxh3_128(page) == pending[0].1 && node_parses(page)
            && all_intact(pages, child_checks(page) + pending.drop_first())),
{
    let checks = child_checks(page);
    let after = checks + pending.drop_first();
    law_intact_step(pages, pending[0].0, pending[0].1);
    if all_intact(pages, pending) {
        assert forall|i: int| 0 <= i < after.len() implies intact(
            pages,
            (#[trigger] after[i]).0,
            after[i].1,
        ) by {
            if i < checks.len() {
                assert(after[i] == checks[i]);
            } else {
                assert(after[i] == pending[i - checks.len() + 1]);
            }
        }
    }
    if xxh3_128(page) == pending[0].1 && node_parses(page) && all_intact(pages, after) {
        assert forall|i: int| 0 <= i < checks.len() implies intact(
            pages,
            (#[trigger] checks[i]).0,
            checks[i].1,
        ) by {
            assert(after[i] == checks[i]);
        }
        assert forall|i: int| 0 <= i < pending.len() implies intact(
            pages,
            (#[trigger] pending[i]).0,
            pending[i].1,
        ) by {
            if i > 0 {
                assert(after[checks.len() + i - 1] == pending[i]);
            }
        }
    }
}

} // verus!
