//! A replicated key-value store.

pub mod kv;
pub mod raft;
