//! An embedded key-value store: a copy-on-write B+tree in fixed-size pages.

pub mod btree;
pub mod bytes;
pub mod db;
pub mod entries;
pub mod error;
pub mod history;
pub mod keys;
pub mod pages;
pub mod snapshots;
pub mod text;
pub mod transactions;
