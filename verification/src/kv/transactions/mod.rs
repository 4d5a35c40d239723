//! Transactions.

pub mod dirty_pages;
pub mod read_tracker;
pub mod read_transaction;
pub mod write_transaction;

use vstd::prelude::*;

verus! {

/// Numbers the transactions that were committed.
pub type TransactionId = u64;

} // verus!
