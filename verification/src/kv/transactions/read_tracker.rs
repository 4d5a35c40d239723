//! Which committed states are being read.

use crate::kv::transactions::TransactionId;
use std::collections::BTreeMap;
use vstd::prelude::*;
use vstd::std_specs::iter::IteratorSpec;

verus! {

broadcast use {vstd::std_specs::btree::group_btree_axioms, vstd::laws_cmp::group_laws_cmp};

/// Counts the readers of every committed state, so that it can be told which pages may be reused.
pub struct ReadTracker {
    active_readers: BTreeMap<TransactionId, u64>,
}

/// The numbers of readers, with one more of the state that `transaction` committed.
pub open spec fn with_reader(
    readers: Map<TransactionId, u64>,
    transaction: TransactionId,
) -> Map<TransactionId, u64> {
    readers.insert(
        transaction,
        if readers.contains_key(transaction) {
            (readers[transaction] + 1) as u64
        } else {
            1
        },
    )
}

/// The numbers of readers, with one less of the state that `transaction` committed.
pub open spec fn without_reader(
    readers: Map<TransactionId, u64>,
    transaction: TransactionId,
) -> Map<TransactionId, u64> {
    if !readers.contains_key(transaction) {
        readers
    } else if readers[transaction] == 1 {
        readers.remove(transaction)
    } else {
        readers.insert(transaction, (readers[transaction] - 1) as u64)
    }
}

/// Readers are counted, each commit's apart from all others': one that begins adds one to the readers of
/// its commit, one that ends takes one away, and a commit is listed as long as it has a reader.
pub proof fn law_readers_are_counted(
    readers: Map<TransactionId, u64>,
    transaction: TransactionId,
    other: TransactionId,
)
    requires
        forall|t: TransactionId| #[trigger] readers.contains_key(t) ==> 0 < readers[t] < u64::MAX,
    ensures
        ({
            let begun = with_reader(readers, transaction);
            let ended = without_reader(readers, transaction);
            let count: int = if readers.contains_key(transaction) {
                readers[transaction] as int
            } else {
                0
            };
            &&& begun.contains_key(transaction)
            &&& begun[transaction] == count + 1
            &&& ended.contains_key(transaction) <==> count > 1
            &&& count > 1 ==> ended[transaction] == count - 1
            &&& other != transaction ==> {
                &&& begun.contains_key(other) <==> readers.contains_key(other)
                &&& ended.contains_key(other) <==> readers.contains_key(other)
                &&& readers.contains_key(other) ==> begun[other] == readers[other] && ended[other]
                    == readers[other]
            }
        }),
{
}

/// A reader that has ended leaves no trace.
pub proof fn law_end_undoes_begin(tracker: ReadTracker, transaction: TransactionId)
    requires
        tracker.inv(),
        tracker.readers().contains_key(transaction) ==> tracker.readers()[transaction] < u64::MAX,
    ensures
        without_reader(with_reader(tracker.readers(), transaction), transaction)
            == tracker.readers(),
{
    assert(without_reader(with_reader(tracker.readers(), transaction), transaction)
        =~= tracker.readers());
}

impl ReadTracker {
    /// The number of readers of every committed state that is being read.
    pub closed spec fn readers(self) -> Map<TransactionId, u64> {
        self.active_readers@
    }

    /// Whether no state is listed without a reader.
    pub open spec fn inv(self) -> bool {
        &&& self.readers().dom().finite()
        &&& forall|t: TransactionId| #[trigger]
            self.readers().contains_key(t) ==> self.readers()[t] > 0
    }

    pub fn new() -> (r: Self)
        ensures
            r.readers() == Map::<TransactionId, u64>::empty(),
            r.inv(),
    {
        ReadTracker { active_readers: BTreeMap::new() }
    }

    /// Takes note of a reader of the state that `transaction` committed.
    pub fn begin_read(&mut self, transaction: TransactionId)
        requires
            old(self).inv(),
            old(self).readers().contains_key(transaction) ==> old(self).readers()[transaction]
                < u64::MAX,
        ensures
            final(self).readers() == with_reader(old(self).readers(), transaction),
            final(self).inv(),
    {
        let count = match self.active_readers.get(&transaction) {
            Some(count) => *count + 1,
            None => 1,
        };
        self.active_readers.insert(transaction, count);
    }

    /// Takes note that a reader of the state that `transaction` committed has ended.
    pub fn end_read(&mut self, transaction: TransactionId)
        requires
            old(self).inv(),
        ensures
            final(self).readers() == without_reader(old(self).readers(), transaction),
            final(self).inv(),
    {
        let count = match self.active_readers.get(&transaction) {
            Some(count) => *count,
            None => return,
        };
        assert(self.readers().contains_key(transaction));
        if count == 1 {
            self.active_readers.remove(&transaction);
        } else {
            self.active_readers.insert(transaction, count - 1);
        }
    }

    /// The oldest state that is being read.
    pub fn oldest_active_transaction(&self) -> (r: Option<TransactionId>)
        requires
            self.inv(),
        ensures
            match r {
                Some(oldest) => {
                    &&& self.readers().contains_key(oldest)
                    &&& forall|t: TransactionId| #[trigger]
                        self.readers().contains_key(t) ==> oldest <= t
                },
                None => self.readers() == Map::<TransactionId, u64>::empty(),
            },
    {
        let mut oldest: Option<TransactionId> = None;
        let ghost keys = self.active_readers.keys().remaining();
        for transaction in iter: self.active_readers.keys()
            invariant
                keys == self.active_readers.keys().remaining(),
                iter.seq() == keys,
                match oldest {
                    None => iter.index() == 0,
                    Some(o) => {
                        &&& exists|i: int| 0 <= i < iter.index() && *(#[trigger] keys[i]) == o
                        &&& forall|i: int| 0 <= i < iter.index() ==> o <= *(#[trigger] keys[i])
                    },
                },
        {
            match oldest {
                Some(o) if o <= *transaction => {},
                _ => {
                    oldest = Some(*transaction);
                },
            }
        }
        proof {
            let set = keys.unref().to_set();
            assert forall|t: TransactionId| self.readers().contains_key(t) implies exists|i: int|
                0 <= i < keys.len() && *(#[trigger] keys[i]) == t by {
                assert(set.contains(t));
                let i = choose|i: int| 0 <= i < keys.unref().len() && keys.unref()[i] == t;
                assert(*keys[i] == t);
            }
            assert forall|i: int| 0 <= i < keys.len() implies self.readers().contains_key(
                *(#[trigger] keys[i]),
            ) by {
                assert(keys.unref()[i] == *keys[i]);
                assert(set.contains(*keys[i]));
            }
            if oldest is None {
                assert(self.readers() =~= Map::<TransactionId, u64>::empty());
            }
        }
        oldest
    }
}

} // verus!
