//! Which pages are handed out: freed ones that nobody reads any more, else new ones at the end of
//! the file.

use crate::kv::pages::PageId;
use crate::kv::transactions::TransactionId;
use std::collections::VecDeque;
use vstd::prelude::*;

verus! {

/// The file grows by this many pages at a time.
pub const PAGE_ALLOCATION_BATCH: u64 = 1024;

/// A page that a transaction no longer uses.
#[derive(Debug, Clone, Copy)]
pub struct FreedPage {
    pub page_id: PageId,
    /// The transaction that freed it: the ones before it may still read the page.
    pub transaction_id: TransactionId,
}

/// Hands out pages.
pub struct PageAllocator {
    pending_free_pages: VecDeque<FreedPage>,
    next_page_id: PageId,
    reserved_page_count: u64,
    growth_due: bool,
}

/// The oldest transaction that is being read, or the greatest number where there is none.
pub open spec fn oldest_or_max(oldest: Option<TransactionId>) -> TransactionId {
    match oldest {
        Some(transaction) => transaction,
        None => u64::MAX,
    }
}

/// How many of these freed pages can be handed out again, one after the other, while `oldest` is
/// being read.
pub open spec fn reusable_run(freed: Seq<FreedPage>, oldest: TransactionId) -> nat
    decreases freed.len(),
{
    if freed.len() == 0 || freed[0].transaction_id >= oldest {
        0
    } else {
        1 + reusable_run(freed.drop_first(), oldest)
    }
}

/// Whether `after` is what became of `before` by handing out `count` pages: freed ones in their order
/// as long as they can be reused, then new ones. The file has to grow if new ones lie beyond its end.
pub open spec fn takes(
    before: PageAllocator,
    after: PageAllocator,
    count: nat,
    oldest: Option<TransactionId>,
) -> bool {
    let run = before.run(oldest);
    let reused = if count <= run {
        count
    } else {
        run
    };
    &&& after.freed() == before.freed().skip(reused as int)
    &&& after.next() == before.next() + (count - reused)
    &&& after.reserved() == before.reserved()
    &&& after.growth_is_due() == if count > run {
        after.next() > after.reserved()
    } else {
        before.growth_is_due()
    }
}

/// Whether `after` is what became of `before` by handing out `count` pages, which are those of
/// `fresh`: whatever `before` still retained for a transaction, `after` retains, and none of it was
/// handed out.
pub open spec fn hands_out(
    before: PageAllocator,
    after: PageAllocator,
    fresh: Set<PageId>,
    count: nat,
    oldest: Option<TransactionId>,
) -> bool {
    &&& after.inv()
    &&& takes(before, after, count, oldest)
    &&& fresh == before.first_pages(count, oldest)
    &&& forall|pages: Set<PageId>, transaction: TransactionId|
        oldest_or_max(oldest) <= transaction && #[trigger] before.retains(pages, transaction)
            ==> fresh.disjoint(pages) && after.retains(pages.union(fresh), transaction)
}

/// What can be reused after some of it was.
proof fn lemma_run_skip(freed: Seq<FreedPage>, oldest: TransactionId, n: nat)
    requires
        n <= reusable_run(freed, oldest),
    ensures
        reusable_run(freed, oldest) <= freed.len(),
        reusable_run(freed.skip(n as int), oldest) == reusable_run(freed, oldest) - n,
    decreases freed.len(),
{
    if freed.len() > 0 && freed[0].transaction_id < oldest {
        if n > 0 {
            lemma_run_skip(freed.drop_first(), oldest, (n - 1) as nat);
            assert(freed.drop_first().skip(n - 1) =~= freed.skip(n as int));
        } else {
            lemma_run_skip(freed.drop_first(), oldest, 0);
        }
    }
    if n == 0 {
        assert(freed.skip(0) =~= freed);
    }
}

/// The page that was freed first is handed out again if, and only if, every commit that is being read is
/// later than the transaction that freed it. Else a page is handed out that was in no use before.
pub proof fn law_freed_page_is_reused_once_nobody_reads_it(
    before: PageAllocator,
    after: PageAllocator,
    oldest: Option<TransactionId>,
)
    requires
        takes(before, after, 1, oldest),
        before.freed().len() > 0,
        before.freed()[0].transaction_id < u64::MAX,
    ensures
        ({
            let first = before.freed()[0];
            let unread = oldest is None || first.transaction_id < oldest->0;
            &&& before.reusable(oldest) <==> unread
            &&& unread ==> {
                &&& before.nth_page(0, oldest) == first.page_id
                &&& after.freed() == before.freed().drop_first()
                &&& after.next() == before.next()
            }
            &&& !unread ==> {
                &&& before.nth_page(0, oldest) == before.next()
                &&& after.freed() == before.freed()
                &&& after.next() == before.next() + 1
            }
            &&& after.reserved() == before.reserved()
        }),
{
    let freed = before.freed();
    reveal_with_fuel(reusable_run, 2);
    assert(freed.skip(0) =~= freed);
    assert(freed.skip(1) =~= freed.drop_first());
}

/// Where no page was freed, new pages are handed out, one after the other.
pub proof fn law_new_pages_follow_each_other(
    before: PageAllocator,
    after: PageAllocator,
    count: nat,
    oldest: Option<TransactionId>,
    k: int,
)
    requires
        takes(before, after, count, oldest),
        before.freed().len() == 0,
        0 <= k < count,
        before.next() + count <= u64::MAX,
    ensures
        before.nth_page(k, oldest) == before.next() + k,
        after.next() == before.next() + count,
        after.freed().len() == 0,
        after.growth_is_due() <==> before.next() + count > before.reserved(),
{
}

/// The pages that are handed out later are those that come after the ones that were handed out first.
pub proof fn lemma_takes_shift(
    a: PageAllocator,
    b: PageAllocator,
    m: nat,
    oldest: Option<TransactionId>,
)
    requires
        takes(a, b, m, oldest),
    ensures
        b.run(oldest) == if m <= a.run(oldest) {
            a.run(oldest) - m
        } else {
            0
        },
        forall|k: int| 0 <= k ==> #[trigger] b.nth_page(k, oldest) == a.nth_page(m + k, oldest),
{
    let run = a.run(oldest);
    let reused = if m <= run {
        m
    } else {
        run
    };
    lemma_run_skip(a.freed(), oldest_or_max(oldest), reused);
}

/// Pages that are handed out one after the other.
proof fn lemma_takes_twice(
    a: PageAllocator,
    b: PageAllocator,
    c: PageAllocator,
    m: nat,
    n: nat,
    oldest: Option<TransactionId>,
)
    requires
        takes(a, b, m, oldest),
        takes(b, c, n, oldest),
    ensures
        takes(a, c, m + n, oldest),
{
    let run = a.run(oldest);
    let reused = if m <= run {
        m
    } else {
        run
    };
    lemma_takes_shift(a, b, m, oldest);
    lemma_run_skip(a.freed(), oldest_or_max(oldest), reused);
    let reused_then = if n <= b.run(oldest) {
        n
    } else {
        b.run(oldest)
    };
    assert(a.freed().skip(reused as int).skip(reused_then as int) =~= a.freed().skip(
        (reused + reused_then) as int,
    ));
}

/// Handing out one page.
pub proof fn lemma_takes_one(
    before: PageAllocator,
    after: PageAllocator,
    page_id: PageId,
    oldest: Option<TransactionId>,
)
    requires
        before.reusable(oldest) ==> {
            &&& page_id == before.freed()[0].page_id
            &&& after.freed() == before.freed().drop_first()
            &&& after.next() == before.next()
            &&& after.growth_is_due() == before.growth_is_due()
        },
        !before.reusable(oldest) ==> {
            &&& page_id == before.next()
            &&& after.freed() == before.freed()
            &&& after.next() == before.next() + 1
            &&& after.growth_is_due() == (after.next() > after.reserved())
        },
        after.reserved() == before.reserved(),
    ensures
        takes(before, after, 1, oldest),
        before.nth_page(0, oldest) == page_id,
        before.first_pages(1, oldest) == Set::empty().insert(page_id),
{
    assert(before.freed().skip(0) =~= before.freed());
    assert(before.freed().skip(1) =~= before.freed().drop_first() || before.freed().len() == 0);
    assert(before.nth_page(0, oldest) == page_id);
    assert(before.first_pages(1, oldest) =~= Set::empty().insert(page_id));
}

/// Handing out pages twice.
pub proof fn lemma_hands_out_twice(
    a: PageAllocator,
    b: PageAllocator,
    c: PageAllocator,
    first: Set<PageId>,
    second: Set<PageId>,
    m: nat,
    n: nat,
    oldest: Option<TransactionId>,
)
    requires
        hands_out(a, b, first, m, oldest),
        hands_out(b, c, second, n, oldest),
    ensures
        hands_out(a, c, first.union(second), m + n, oldest),
        first.disjoint(second),
{
    assert forall|pages: Set<PageId>, transaction: TransactionId|
        oldest_or_max(oldest) <= transaction && #[trigger] a.retains(
            pages,
            transaction,
        ) implies first.union(second).disjoint(pages) && c.retains(
        pages.union(first.union(second)),
        transaction,
    ) by {
        assert(b.retains(pages.union(first), transaction));
        assert(pages.union(first).union(second) =~= pages.union(first.union(second)));
    }
    assert(a.retains(Set::empty(), u64::MAX));
    assert(b.retains(Set::<PageId>::empty().union(first), u64::MAX));
    lemma_takes_twice(a, b, c, m, n, oldest);
    lemma_takes_shift(a, b, m, oldest);
    let all = a.first_pages(m + n, oldest);
    assert forall|p: PageId| #[trigger] all.contains(p) == first.union(second).contains(p) by {
        if all.contains(p) {
            let k = choose|k: int| 0 <= k < m + n && #[trigger] a.nth_page(k, oldest) == p;
            if k >= m {
                assert(b.nth_page(k - m, oldest) == p);
            }
        }
        if second.contains(p) {
            let k = choose|k: int| 0 <= k < n && #[trigger] b.nth_page(k, oldest) == p;
            assert(a.nth_page(m + k, oldest) == p);
        }
        if first.contains(p) {
            let k = choose|k: int| 0 <= k < m && #[trigger] a.nth_page(k, oldest) == p;
            assert(0 <= k < m + n);
        }
    }
    assert(all =~= first.union(second));
}

/// Handing out nothing.
pub proof fn lemma_hands_out_nothing(a: PageAllocator, oldest: Option<TransactionId>)
    requires
        a.inv(),
    ensures
        hands_out(a, a, Set::empty(), 0, oldest),
{
    assert(a.freed().skip(0) =~= a.freed());
    assert(a.first_pages(0, oldest) =~= Set::empty());
    assert forall|pages: Set<PageId>, transaction: TransactionId|
        oldest_or_max(oldest) <= transaction && #[trigger] a.retains(
            pages,
            transaction,
        ) implies a.retains(pages.union(Set::empty()), transaction) by {
        assert(pages.union(Set::empty()) =~= pages);
    }
}

/// What is retained of more pages is retained of fewer.
pub proof fn lemma_retains_fewer(
    allocator: PageAllocator,
    pages: Set<PageId>,
    fewer: Set<PageId>,
    transaction: TransactionId,
)
    requires
        allocator.retains(pages, transaction),
        fewer.subset_of(pages),
    ensures
        allocator.retains(fewer, transaction),
{
}

impl PageAllocator {
    /// The pages that were freed and not handed out again, in the order in which they were freed.
    pub closed spec fn freed(self) -> Seq<FreedPage> {
        self.pending_free_pages@
    }

    /// The first page that was never handed out.
    pub closed spec fn next(self) -> PageId {
        self.next_page_id
    }

    /// The number of pages that the file has room for.
    pub closed spec fn reserved(self) -> u64 {
        self.reserved_page_count
    }

    /// Whether the file has to grow before the pages that were handed out can be written.
    pub closed spec fn growth_is_due(self) -> bool {
        self.growth_due
    }

    /// Whether every freed page was handed out before, and none was freed twice.
    pub open spec fn inv(self) -> bool {
        &&& forall|i: int| 0 <= i < self.freed().len() ==> (#[trigger] self.freed()[i]).page_id
            < self.next()
        &&& forall|i: int, j: int|
            0 <= i < j < self.freed().len() ==> (#[trigger] self.freed()[i]).page_id != (
            #[trigger] self.freed()[j]).page_id
    }

    /// Whether the page that was freed first can be handed out again.
    pub open spec fn reusable(self, oldest: Option<TransactionId>) -> bool {
        self.freed().len() > 0 && self.freed()[0].transaction_id < oldest_or_max(oldest)
    }

    /// How many of the freed pages can be handed out again, one after the other.
    pub open spec fn run(self, oldest: Option<TransactionId>) -> nat {
        reusable_run(self.freed(), oldest_or_max(oldest))
    }

    /// The page that is handed out after `k` others: the freed ones that can be handed out again in
    /// their order, then new ones.
    pub open spec fn nth_page(self, k: int, oldest: Option<TransactionId>) -> PageId {
        if k < self.run(oldest) {
            self.freed()[k].page_id
        } else {
            (self.next() + (k - self.run(oldest))) as PageId
        }
    }

    /// The pages that are handed out first.
    pub open spec fn first_pages(self, count: nat, oldest: Option<TransactionId>) -> Set<PageId> {
        Set::new(
            |p: PageId| exists|k: int| 0 <= k < count && #[trigger] self.nth_page(k, oldest) == p,
        )
    }

    /// Whether none of `pages` was freed by a transaction up to `transaction`, so that they may
    /// still be read by one that began then.
    pub open spec fn retains(self, pages: Set<PageId>, transaction: TransactionId) -> bool {
        &&& forall|p: PageId| #[trigger] pages.contains(p) ==> p < self.next()
        &&& forall|i: int|
            0 <= i < self.freed().len() && pages.contains((#[trigger] self.freed()[i]).page_id)
                ==> self.freed()[i].transaction_id > transaction
    }

    pub fn new(file_len: u64, page_size: u64, next_page_id: PageId) -> (r: Self)
        requires
            page_size > 0,
        ensures
            r.freed() == Seq::<FreedPage>::empty(),
            r.next() == next_page_id,
            r.reserved() == file_len / page_size,
            !r.growth_is_due(),
            r.inv(),
    {
        PageAllocator {
            pending_free_pages: VecDeque::new(),
            next_page_id,
            reserved_page_count: file_len / page_size,
            growth_due: false,
        }
    }

    /// Hands out a page. `oldest` is the oldest transaction that is being read: a page is not
    /// handed out again before every transaction that might see it has ended.
    pub fn allocate_page_id(&mut self, oldest: Option<TransactionId>) -> (r: PageId)
        requires
            old(self).reusable(oldest) || old(self).next() < u64::MAX,
        ensures
            old(self).reusable(oldest) ==> {
                &&& r == old(self).freed()[0].page_id
                &&& final(self).freed() == old(self).freed().drop_first()
                &&& final(self).next() == old(self).next()
                &&& final(self).growth_is_due() == old(self).growth_is_due()
            },
            !old(self).reusable(oldest) ==> {
                &&& r == old(self).next()
                &&& final(self).freed() == old(self).freed()
                &&& final(self).next() == old(self).next() + 1
                &&& final(self).growth_is_due() == (final(self).next() > final(self).reserved())
            },
            final(self).reserved() == old(self).reserved(),
            old(self).inv() ==> final(self).inv() && r < final(self).next(),
            forall|pages: Set<PageId>, transaction: TransactionId|
                oldest_or_max(oldest) <= transaction && #[trigger] old(self).retains(
                    pages,
                    transaction,
                ) ==> {
                    &&& !pages.contains(r)
                    &&& final(self).retains(pages, transaction)
                    &&& old(self).inv() ==> final(self).retains(pages.insert(r), transaction)
                },
    {
        let ghost before = *self;
        let oldest_active_tx = match oldest {
            Some(transaction) => transaction,
            None => u64::MAX,
        };
        if self.pending_free_pages.len() > 0 && self.pending_free_pages[0].transaction_id
            < oldest_active_tx {
            if let Some(freed_page) = self.pending_free_pages.pop_front() {
                proof {
                    assert(self.freed() =~= before.freed().drop_first());
                    assert forall|i: int| 0 <= i < self.freed().len() implies #[trigger] self.freed()[i]
                        == before.freed()[i + 1] by {}
                    assert(before.inv() ==> self.inv());
                }
                return freed_page.page_id;
            }
        }
        let result = self.next_page_id;
        self.next_page_id = result + 1;
        self.growth_due = self.next_page_id > self.reserved_page_count;
        result
    }

    /// How many pages the file has to grow by before the pages that were handed out can be written.
    pub fn growth(&self) -> (r: Option<u64>)
        ensures
            r == if self.growth_is_due() {
                Some(PAGE_ALLOCATION_BATCH)
            } else {
                None
            },
    {
        if self.growth_due {
            Some(PAGE_ALLOCATION_BATCH)
        } else {
            None
        }
    }

    /// Takes note that the file has grown and has room for this many pages now.
    pub fn reserve(&mut self, page_count: u64)
        ensures
            final(self).reserved() == page_count,
            final(self).growth_is_due() == (final(self).next() > page_count),
            final(self).freed() == old(self).freed(),
            final(self).next() == old(self).next(),
    {
        self.reserved_page_count = page_count;
        self.growth_due = self.next_page_id > page_count;
    }

    /// Whether a page was handed out and is not free.
    pub fn is_in_use(&self, page_id: PageId) -> (r: bool)
        ensures
            r == self.retains(Set::empty().insert(page_id), u64::MAX),
    {
        if page_id >= self.next_page_id {
            assert(Set::<PageId>::empty().insert(page_id).contains(page_id));
            return false;
        }
        let mut i: usize = 0;
        while i < self.pending_free_pages.len()
            invariant
                i <= self.freed().len(),
                forall|j: int| 0 <= j < i ==> (#[trigger] self.freed()[j]).page_id != page_id,
            decreases self.freed().len() - i,
        {
            if self.pending_free_pages[i].page_id == page_id {
                assert(self.freed()[i as int].page_id == page_id);
                return false;
            }
            i += 1;
        }
        true
    }

    pub fn next_page_id(&self) -> (r: PageId)
        ensures
            r == self.next(),
    {
        self.next_page_id
    }

    /// Frees a page that `transaction_id` no longer uses.
    pub fn free_page(&mut self, page_id: PageId, transaction_id: TransactionId)
        ensures
            final(self).freed() == old(self).freed().push(FreedPage { page_id, transaction_id }),
            final(self).next() == old(self).next(),
            final(self).reserved() == old(self).reserved(),
            final(self).growth_is_due() == old(self).growth_is_due(),
    {
        self.pending_free_pages.push_back(FreedPage { page_id, transaction_id });
    }
}

} // verus!
